//! The plain value tree.

use vstd::prelude::*;
use std::borrow::Cow;
use crate::grammar::key_position;
use crate::number::{Number, NumberModel};
use crate::serialize_trait::{write_items, write_members, Serialize, Serializer};
use crate::text::{cow_copy, cow_str, str_eq};

verus! {

/// The mathematical content of a value tree: what a text denotes.
///
/// The members of an object stand in a sequence. Where the object came out of
/// a reader, no key occurs twice in it.
pub enum Json {
    String(Seq<char>),
    Number(NumberModel),
    Object(Seq<(Seq<char>, Json)>),
    Array(Seq<Json>),
    Boolean(bool),
    Null,
}

/// A value tree that borrows its texts from the buffer it was read from
/// wherever the buffer holds them as they are.
#[derive(Debug)]
pub enum Value<'a> {
    String(Cow<'a, str>),
    Number(Number),
    Object(Vec<(Cow<'a, str>, Value<'a>)>),
    Array(Vec<Value<'a>>),
    Boolean(bool),
    Null,
}

/// What the members of an object denote, in the order in which they stand.
pub open spec fn members_model<'a>(members: Seq<(Cow<'a, str>, Value<'a>)>) -> Seq<
    (Seq<char>, Json),
> {
    Seq::new(members.len(), |i: int| (members[i].0@, members[i].1@))
}

/// What the elements of an array denote, in order.
pub open spec fn values_model<'a>(items: Seq<Value<'a>>) -> Seq<Json> {
    Seq::new(items.len(), |i: int| items[i]@)
}

impl<'a> View for Value<'a> {
    type V = Json;

    open spec fn view(&self) -> Json
        decreases self,
    {
        match self {
            Value::String(s) => Json::String(s@),
            Value::Number(n) => Json::Number(n@),
            Value::Object(members) => Json::Object(
                Seq::new(
                    members@.len(),
                    |i: int|
                        (
                            members@[i].0@,
                            if 0 <= i < members@.len() {
                                members@[i].1.view()
                            } else {
                                Json::Null
                            },
                        ),
                ),
            ),
            Value::Array(items) => Json::Array(
                Seq::new(
                    items@.len(),
                    |i: int|
                        if 0 <= i < items@.len() {
                            items@[i].view()
                        } else {
                            Json::Null
                        },
                ),
            ),
            Value::Boolean(b) => Json::Boolean(*b),
            Value::Null => Json::Null,
        }
    }
}

impl Json {
    /// Every number in the tree is written as the grammar writes numbers.
    pub open spec fn wf(self) -> bool
        decreases self,
    {
        match self {
            Json::Number(n) => n.wf(),
            Json::Object(members) => forall|i: int|
                0 <= i < members.len() ==> (#[trigger] members[i]).1.wf(),
            Json::Array(items) => forall|i: int| 0 <= i < items.len() ==> (#[trigger] items[i]).wf(),
            _ => true,
        }
    }

    /// The number of objects and arrays that stand one within the other,
    /// this value counted if it is one.
    pub open spec fn nesting(self) -> nat
        decreases self,
    {
        match self {
            Json::Object(members) => 1 + Self::members_nesting(members, members.len()),
            Json::Array(items) => 1 + Self::items_nesting(items, items.len()),
            _ => 0,
        }
    }

    /// The greatest nesting among the values of the first `upto` members.
    pub open spec fn members_nesting(members: Seq<(Seq<char>, Json)>, upto: nat) -> nat
        decreases members, upto,
    {
        if upto == 0 || upto > members.len() {
            0
        } else {
            let rest = Self::members_nesting(members, (upto - 1) as nat);
            let last = members[upto - 1].1.nesting();
            if last > rest {
                last
            } else {
                rest
            }
        }
    }

    /// The greatest nesting among the first `upto` elements.
    pub open spec fn items_nesting(items: Seq<Json>, upto: nat) -> nat
        decreases items, upto,
    {
        if upto == 0 || upto > items.len() {
            0
        } else {
            let rest = Self::items_nesting(items, (upto - 1) as nat);
            let last = items[upto - 1].nesting();
            if last > rest {
                last
            } else {
                rest
            }
        }
    }
}

/// Every key and every text of the members is borrowed.
pub open spec fn members_borrow<'a>(members: Seq<(Cow<'a, str>, Value<'a>)>) -> bool {
    forall|i: int|
        0 <= i < members.len() ==> (#[trigger] members[i]).0 is Borrowed && members[i].1.borrows()
}

/// Every text of the elements is borrowed.
pub open spec fn values_borrow<'a>(items: Seq<Value<'a>>) -> bool {
    forall|i: int| 0 <= i < items.len() ==> (#[trigger] items[i]).borrows()
}

impl<'a> Value<'a> {
    /// Every text and every key in the tree is borrowed: the tree holds no
    /// text of its own.
    pub open spec fn borrows(&self) -> bool
        decreases self,
    {
        match self {
            Value::String(s) => s is Borrowed,
            Value::Object(members) => forall|i: int|
                0 <= i < members@.len() ==> (#[trigger] members@[i]).0 is Borrowed
                    && members@[i].1.borrows(),
            Value::Array(items) => forall|i: int|
                0 <= i < items@.len() ==> (#[trigger] items@[i]).borrows(),
            _ => true,
        }
    }

    /// The text, if the value is a string.
    pub fn as_string(&self) -> (r: Option<&str>)
        ensures
            match self {
                Value::String(text) => r matches Some(t) && t@ == text@,
                _ => r is None,
            },
    {
        match self {
            Value::String(text) => Some(cow_str(text)),
            _ => None,
        }
    }

    /// The number, if the value is one.
    pub fn as_number(&self) -> (r: Option<&Number>)
        ensures
            match self {
                Value::Number(n) => r == Some(n),
                _ => r is None,
            },
    {
        match self {
            Value::Number(n) => Some(n),
            _ => None,
        }
    }

    /// The members, if the value is an object.
    pub fn as_object(&self) -> (r: Option<&Vec<(Cow<'a, str>, Value<'a>)>>)
        ensures
            match self {
                Value::Object(members) => r == Some(members),
                _ => r is None,
            },
    {
        match self {
            Value::Object(members) => Some(members),
            _ => None,
        }
    }

    /// The elements, if the value is an array.
    pub fn as_array(&self) -> (r: Option<&Vec<Value<'a>>>)
        ensures
            match self {
                Value::Array(items) => r == Some(items),
                _ => r is None,
            },
    {
        match self {
            Value::Array(items) => Some(items),
            _ => None,
        }
    }

    /// The truth value, if the value is one.
    pub fn as_boolean(&self) -> (r: Option<bool>)
        ensures
            match self {
                Value::Boolean(b) => r == Some(*b),
                _ => r is None,
            },
    {
        match self {
            Value::Boolean(b) => Some(*b),
            _ => None,
        }
    }

    /// The value bound to `key`, if the value is an object that has the key:
    /// that of the first member with the key.
    pub fn get(&self, key: &str) -> (r: Option<&Value<'a>>)
        ensures
            match self {
                Value::Object(members) => {
                    let p = key_position(members_model(members@), key@, 0);
                    if p < members@.len() {
                        r == Some(&members@[p].1)
                    } else {
                        r is None
                    }
                },
                _ => r is None,
            },
    {
        match self {
            Value::Object(members) => {
                let mut i: usize = 0;
                while i < members.len()
                    invariant
                        i <= members.len(),
                        *self == Value::Object(*members),
                        key_position(members_model(members@), key@, 0) == key_position(
                            members_model(members@),
                            key@,
                            i as int,
                        ),
                    decreases members.len() - i,
                {
                    assert(members_model(members@)[i as int].0 == members@[i as int].0@);
                    if str_eq(cow_str(&members[i].0), key) {
                        return Some(&members[i].1);
                    }
                    i += 1;
                }
                None
            },
            _ => None,
        }
    }
}

impl<'a> Serialize for Value<'a> {
    open spec fn shape(&self) -> Json {
        self@
    }

    /// Writes the tree, the members of an object in the order in which they
    /// are stored.
    fn serialize<S: Serializer>(&self, serializer: &mut S)
        decreases self,
    {
        match self {
            Value::Object(members) => {
                let ghost written = self@->Object_0;
                serializer.open_object();
                let ghost begun = serializer.state();
                let mut i: usize = 0;
                while i < members.len()
                    invariant
                        i <= members.len(),
                        *self == Value::Object(*members),
                        self@ == Json::Object(written),
                        written.len() == members@.len(),
                        serializer.state() == write_members::<S>(begun, written, i as nat),
                    decreases members.len() - i,
                {
                    assert(written[i as int] == (members@[i as int].0@, members@[i as int].1@));
                    serializer.key(cow_str(&members[i].0));
                    members[i].1.serialize(serializer);
                    serializer.end_property();
                    i += 1;
                }
                serializer.close_object();
            },
            Value::Array(items) => {
                let ghost written = self@->Array_0;
                serializer.open_array();
                let ghost begun = serializer.state();
                let mut i: usize = 0;
                while i < items.len()
                    invariant
                        i <= items.len(),
                        *self == Value::Array(*items),
                        self@ == Json::Array(written),
                        written.len() == items@.len(),
                        serializer.state() == write_items::<S>(begun, written, i as nat),
                    decreases items.len() - i,
                {
                    assert(written[i as int] == items@[i as int]@);
                    items[i].serialize(serializer);
                    serializer.end_element();
                    i += 1;
                }
                serializer.close_array();
            },
            Value::String(s) => serializer.string(cow_str(s)),
            Value::Number(n) => serializer.number(n),
            Value::Boolean(b) => serializer.bool(*b),
            Value::Null => serializer.null(),
        }
    }
}

impl<'a> Clone for Value<'a> {
    /// A copy of the tree. What the tree borrows, the copy borrows too.
    fn clone(&self) -> (r: Self)
        ensures
            r@ == self@,
        decreases self,
    {
        match self {
            Value::String(s) => Value::String(cow_copy(s)),
            Value::Number(n) => Value::Number(n.duplicate()),
            Value::Boolean(b) => Value::Boolean(*b),
            Value::Null => Value::Null,
            Value::Object(members) => {
                let mut copy: Vec<(Cow<'a, str>, Value<'a>)> = Vec::new();
                let mut i: usize = 0;
                while i < members.len()
                    invariant
                        i <= members.len(),
                        *self == Value::Object(*members),
                        copy@.len() == i,
                        forall|k: int|
                            0 <= k < i ==> (#[trigger] copy@[k]).0@ == members@[k].0@ && copy@[k].1@
                                == members@[k].1@,
                    decreases members.len() - i,
                {
                    assert(decreases_to!(self => self->Object_0));
                    assert(decreases_to!(self->Object_0 => members@[i as int]));
                    assert(decreases_to!(members@[i as int] => members@[i as int].1));
                    let value = members[i].1.clone();
                    copy.push((cow_copy(&members[i].0), value));
                    i += 1;
                }
                let r = Value::Object(copy);
                assert(r@->Object_0 =~= self@->Object_0);
                r
            },
            Value::Array(items) => {
                let mut copy: Vec<Value<'a>> = Vec::new();
                let mut i: usize = 0;
                while i < items.len()
                    invariant
                        i <= items.len(),
                        *self == Value::Array(*items),
                        copy@.len() == i,
                        forall|k: int| 0 <= k < i ==> (#[trigger] copy@[k])@ == items@[k]@,
                    decreases items.len() - i,
                {
                    assert(decreases_to!(self => self->Array_0));
                    assert(decreases_to!(self->Array_0 => items@[i as int]));
                    let value = items[i].clone();
                    copy.push(value);
                    i += 1;
                }
                let r = Value::Array(copy);
                assert(r@->Array_0 =~= self@->Array_0);
                r
            },
        }
    }
}

} // verus!
