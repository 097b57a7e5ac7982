//! The value tree that keeps the order of its keys.

use vstd::prelude::*;
use std::borrow::Cow;
use crate::grammar::key_position;
use crate::number::{Number, NumberModel};
use crate::serialize_trait::{write_items, write_members, Serialize, Serializer};
use crate::deserialize_trait::{AnyModel, AnyValue, Deserialize, Deserializer};
use crate::text::{cow_str, str_eq};
use crate::value::Json;

verus! {

/// The mathematical content of a [`Thing`]: the tree, each member of an
/// object with the place at which its key was first seen.
pub enum ThingModel {
    String(Seq<char>),
    Bool(bool),
    Number(NumberModel),
    Object(Seq<(Seq<char>, (ThingModel, usize))>),
    Array(Seq<ThingModel>),
    Null,
}

/// A member of an object: its value and the place at which its key was
/// first seen, counted from zero.
#[derive(Debug)]
pub struct ObjectProperty<'a> {
    pub item: Thing<'a>,
    pub index: usize,
}

/// A value tree that anything can be read into. It borrows its texts from
/// the buffer it was read from wherever the buffer holds them as they are.
#[derive(Debug)]
pub enum Thing<'a> {
    String(Cow<'a, str>),
    Bool(bool),
    Number(Number),
    Object(Vec<(Cow<'a, str>, ObjectProperty<'a>)>),
    Array(Vec<Thing<'a>>),
    Null,
}

/// A member of an object of a [`ThingOwned`].
#[derive(Debug)]
pub struct ObjectPropertyOwned {
    pub item: ThingOwned,
    pub index: usize,
}

/// A [`Thing`] that borrows nothing.
#[derive(Debug)]
pub enum ThingOwned {
    String(String),
    Bool(bool),
    Number(Number),
    Object(Vec<(String, ObjectPropertyOwned)>),
    Array(Vec<ThingOwned>),
    Null,
}

impl<'a> View for Thing<'a> {
    type V = ThingModel;

    open spec fn view(&self) -> ThingModel
        decreases self,
    {
        match self {
            Thing::String(s) => ThingModel::String(s@),
            Thing::Bool(b) => ThingModel::Bool(*b),
            Thing::Number(n) => ThingModel::Number(n@),
            Thing::Object(members) => ThingModel::Object(
                Seq::new(
                    members@.len(),
                    |i: int|
                        (
                            members@[i].0@,
                            (
                                if 0 <= i < members@.len() {
                                    members@[i].1.item.view()
                                } else {
                                    ThingModel::Null
                                },
                                members@[i].1.index,
                            ),
                        ),
                ),
            ),
            Thing::Array(items) => ThingModel::Array(
                Seq::new(
                    items@.len(),
                    |i: int|
                        if 0 <= i < items@.len() {
                            items@[i].view()
                        } else {
                            ThingModel::Null
                        },
                ),
            ),
            Thing::Null => ThingModel::Null,
        }
    }
}

impl View for ThingOwned {
    type V = ThingModel;

    open spec fn view(&self) -> ThingModel
        decreases self,
    {
        match self {
            ThingOwned::String(s) => ThingModel::String(s@),
            ThingOwned::Bool(b) => ThingModel::Bool(*b),
            ThingOwned::Number(n) => ThingModel::Number(n@),
            ThingOwned::Object(members) => ThingModel::Object(
                Seq::new(
                    members@.len(),
                    |i: int|
                        (
                            members@[i].0@,
                            (
                                if 0 <= i < members@.len() {
                                    members@[i].1.item.view()
                                } else {
                                    ThingModel::Null
                                },
                                members@[i].1.index,
                            ),
                        ),
                ),
            ),
            ThingOwned::Array(items) => ThingModel::Array(
                Seq::new(
                    items@.len(),
                    |i: int|
                        if 0 <= i < items@.len() {
                            items@[i].view()
                        } else {
                            ThingModel::Null
                        },
                ),
            ),
            ThingOwned::Null => ThingModel::Null,
        }
    }
}

/// What the members of an object denote, in the order in which they stand.
pub open spec fn properties_model<'a>(members: Seq<(Cow<'a, str>, ObjectProperty<'a>)>) -> Seq<
    (Seq<char>, (ThingModel, usize)),
> {
    Seq::new(members.len(), |i: int| (members[i].0@, (members[i].1.item@, members[i].1.index)))
}

/// What the elements of an array denote, in order.
pub open spec fn things_model<'a>(items: Seq<Thing<'a>>) -> Seq<ThingModel> {
    Seq::new(items.len(), |i: int| items[i]@)
}

/// Every key and every text of the members is borrowed.
pub open spec fn properties_borrow<'a>(members: Seq<(Cow<'a, str>, ObjectProperty<'a>)>) -> bool {
    forall|i: int|
        0 <= i < members.len() ==> (#[trigger] members[i]).0 is Borrowed
            && members[i].1.item.borrows()
}

/// Every text of the elements is borrowed.
pub open spec fn things_borrow<'a>(items: Seq<Thing<'a>>) -> bool {
    forall|i: int| 0 <= i < items.len() ==> (#[trigger] items[i]).borrows()
}

impl<'a> Thing<'a> {
    /// Every text and every key in the tree is borrowed: the tree holds no
    /// text of its own.
    pub open spec fn borrows(&self) -> bool
        decreases self,
    {
        match self {
            Thing::String(s) => s is Borrowed,
            Thing::Object(members) => forall|i: int|
                0 <= i < members@.len() ==> (#[trigger] members@[i]).0 is Borrowed
                    && members@[i].1.item.borrows(),
            Thing::Array(items) => forall|i: int|
                0 <= i < items@.len() ==> (#[trigger] items@[i]).borrows(),
            _ => true,
        }
    }

    /// A copy of this tree that borrows nothing: every text is copied, every
    /// place is kept.
    pub fn to_owned(&self) -> (r: ThingOwned)
        ensures
            r@ == self@,
        decreases self,
    {
        match self {
            Thing::String(s) => ThingOwned::String(cow_str(s).to_owned()),
            Thing::Bool(b) => ThingOwned::Bool(*b),
            Thing::Number(n) => ThingOwned::Number(n.duplicate()),
            Thing::Object(members) => {
                let mut copy: Vec<(String, ObjectPropertyOwned)> = Vec::new();
                let mut i: usize = 0;
                while i < members.len()
                    invariant
                        i <= members.len(),
                        *self == Thing::Object(*members),
                        copy@.len() == i,
                        forall|k: int|
                            0 <= k < i ==> (#[trigger] copy@[k]).0@ == members@[k].0@
                                && copy@[k].1.item@ == members@[k].1.item@ && copy@[k].1.index
                                == members@[k].1.index,
                    decreases members.len() - i,
                {
                    assert(decreases_to!(self => self->Object_0));
                    assert(decreases_to!(self->Object_0 => members@[i as int]));
                    assert(decreases_to!(members@[i as int] => members@[i as int].1));
                    assert(decreases_to!(members@[i as int].1 => members@[i as int].1.item));
                    let property = ObjectPropertyOwned {
                        item: members[i].1.item.to_owned(),
                        index: members[i].1.index,
                    };
                    copy.push((cow_str(&members[i].0).to_owned(), property));
                    i += 1;
                }
                let r = ThingOwned::Object(copy);
                assert(r@->Object_0 =~= self@->Object_0);
                r
            },
            Thing::Array(items) => {
                let mut copy: Vec<ThingOwned> = Vec::new();
                let mut i: usize = 0;
                while i < items.len()
                    invariant
                        i <= items.len(),
                        *self == Thing::Array(*items),
                        copy@.len() == i,
                        forall|k: int| 0 <= k < i ==> (#[trigger] copy@[k])@ == items@[k]@,
                    decreases items.len() - i,
                {
                    assert(decreases_to!(self => self->Array_0));
                    assert(decreases_to!(self->Array_0 => items@[i as int]));
                    let item = &items[i];
                    copy.push(Thing::to_owned(item));
                    i += 1;
                }
                let r = ThingOwned::Array(copy);
                assert(r@->Array_0 =~= self@->Array_0);
                r
            },
            Thing::Null => ThingOwned::Null,
        }
    }

    /// The text, if this is a string.
    pub fn string(&self) -> (r: Option<&Cow<'a, str>>)
        ensures
            match self {
                Thing::String(text) => r == Some(text),
                _ => r is None,
            },
    {
        match self {
            Thing::String(v) => Some(v),
            _ => None,
        }
    }

    /// The truth value, if this is one.
    pub fn bool(&self) -> (r: Option<bool>)
        ensures
            match self {
                Thing::Bool(b) => r == Some(*b),
                _ => r is None,
            },
    {
        match self {
            Thing::Bool(v) => Some(*v),
            _ => None,
        }
    }

    /// The number, if this is one.
    pub fn number(&self) -> (r: Option<&Number>)
        ensures
            match self {
                Thing::Number(n) => r == Some(n),
                _ => r is None,
            },
    {
        match self {
            Thing::Number(v) => Some(v),
            _ => None,
        }
    }

    /// The members, if this is an object.
    pub fn object(&self) -> (r: Option<&Vec<(Cow<'a, str>, ObjectProperty<'a>)>>)
        ensures
            match self {
                Thing::Object(members) => r == Some(members),
                _ => r is None,
            },
    {
        match self {
            Thing::Object(v) => Some(v),
            _ => None,
        }
    }

    /// The elements, if this is an array.
    pub fn array(&self) -> (r: Option<&Vec<Thing<'a>>>)
        ensures
            match self {
                Thing::Array(items) => r == Some(items),
                _ => r is None,
            },
    {
        match self {
            Thing::Array(v) => Some(v),
            _ => None,
        }
    }
}

/// `order` with the position `p` put behind the last position whose index
/// is not greater than that of `p`.
pub open spec fn insert_by_index(indices: Seq<usize>, order: Seq<usize>, p: usize) -> Seq<usize>
    decreases order.len(),
{
    if order.len() == 0 {
        seq![p]
    } else if indices[order.last() as int] <= indices[p as int] {
        order.push(p)
    } else {
        insert_by_index(indices, order.drop_last(), p).push(order.last())
    }
}

/// The first `upto` positions of `indices`, ordered by the index that
/// stands at each; positions with the same index keep their order.
pub open spec fn index_order(indices: Seq<usize>, upto: nat) -> Seq<usize>
    decreases upto,
{
    if upto == 0 || upto > indices.len() {
        Seq::empty()
    } else {
        insert_by_index(indices, index_order(indices, (upto - 1) as nat), (upto - 1) as usize)
    }
}

/// The indices of the members of an object, in the order in which the
/// members stand.
pub open spec fn indices_of(members: Seq<(Seq<char>, (ThingModel, usize))>) -> Seq<usize> {
    Seq::new(members.len(), |i: int| members[i].1.1)
}

impl ThingModel {
    /// The value that the tree stands for: the members of each object in
    /// the order of their indices.
    pub open spec fn json(self) -> Json
        decreases self,
    {
        match self {
            ThingModel::String(s) => Json::String(s),
            ThingModel::Bool(b) => Json::Boolean(b),
            ThingModel::Number(n) => Json::Number(n),
            ThingModel::Null => Json::Null,
            ThingModel::Array(items) => Json::Array(
                Seq::new(
                    items.len(),
                    |i: int|
                        if 0 <= i < items.len() {
                            items[i].json()
                        } else {
                            Json::Null
                        },
                ),
            ),
            ThingModel::Object(members) => {
                let order = index_order(indices_of(members), members.len());
                Json::Object(
                    Seq::new(
                        members.len(),
                        |k: int|
                            (
                                members[order[k] as int].0,
                                if 0 <= order[k] < members.len() {
                                    members[order[k] as int].1.0.json()
                                } else {
                                    Json::Null
                                },
                            ),
                    ),
                )
            },
        }
    }
}

/// Putting a position in by its index keeps all positions, and puts the new
/// one where the search from the end stops.
pub proof fn lemma_insert_by_index(indices: Seq<usize>, order: Seq<usize>, p: usize, j: int)
    requires
        0 <= j <= order.len(),
        forall|k: int| j <= k < order.len() ==> indices[order[k] as int] > indices[p as int],
        j > 0 ==> indices[order[j - 1] as int] <= indices[p as int],
    ensures
        insert_by_index(indices, order, p) == order.insert(j, p),
    decreases order.len(),
{
    if order.len() == 0 {
        assert(order.insert(j, p) =~= seq![p]);
    } else if j == order.len() {
        assert(order.insert(j, p) =~= order.push(p));
    } else {
        lemma_insert_by_index(indices, order.drop_last(), p, j);
        assert(order.drop_last().insert(j, p).push(order.last()) =~= order.insert(j, p));
    }
}

/// The positions of `indices`, ordered by the index that stands at each;
/// positions with the same index keep their order.
pub fn index_ordered(indices: &Vec<usize>) -> (order: Vec<usize>)
    ensures
        order@ == index_order(indices@, indices@.len()),
        order@.len() == indices@.len(),
        forall|k: int| 0 <= k < order@.len() ==> #[trigger] order@[k] < indices@.len(),
{
    let mut order: Vec<usize> = Vec::new();
    let mut i: usize = 0;
    while i < indices.len()
        invariant
            i <= indices.len(),
            order@ == index_order(indices@, i as nat),
            order@.len() == i,
            forall|k: int| 0 <= k < order@.len() ==> #[trigger] order@[k] < i,
        decreases indices.len() - i,
    {
        let mut j: usize = order.len();
        while j > 0 && indices[order[j - 1]] > indices[i]
            invariant
                j <= order.len(),
                i < indices.len(),
                order@.len() == i,
                forall|k: int| 0 <= k < order@.len() ==> #[trigger] order@[k] < i,
                forall|k: int|
                    j <= k < order@.len() ==> indices@[(#[trigger] order@[k]) as int] > indices@[i as int],
            decreases j,
        {
            j -= 1;
        }
        proof {
            lemma_insert_by_index(indices@, order@, i, j as int);
        }
        order.insert(j, i);
        i += 1;
    }
    order
}

impl<'a> Serialize for Thing<'a> {
    open spec fn shape(&self) -> Json {
        self@.json()
    }

    /// Writes the tree. The members of an object are written in the order
    /// of their indices, whatever the order in which they are stored.
    fn serialize<S: Serializer>(&self, serializer: &mut S)
        decreases self,
    {
        match self {
            Thing::Object(members) => {
                let ghost model = self@->Object_0;
                let ghost written = self@.json()->Object_0;
                let mut indices: Vec<usize> = Vec::new();
                let mut i: usize = 0;
                while i < members.len()
                    invariant
                        i <= members.len(),
                        *self == Thing::Object(*members),
                        model == self@->Object_0,
                        indices@ == indices_of(model).take(i as int),
                    decreases members.len() - i,
                {
                    indices.push(members[i].1.index);
                    assert(indices@ =~= indices_of(model).take(i + 1));
                    i += 1;
                }
                assert(indices@ =~= indices_of(model));
                let order = index_ordered(&indices);
                serializer.open_object();
                let ghost begun = serializer.state();
                let mut k: usize = 0;
                while k < order.len()
                    invariant
                        k <= order.len(),
                        *self == Thing::Object(*members),
                        model == self@->Object_0,
                        written == self@.json()->Object_0,
                        self@.json() == Json::Object(written),
                        order@ == index_order(indices_of(model), model.len()),
                        order@.len() == members@.len(),
                        forall|n: int| 0 <= n < order@.len() ==> #[trigger] order@[n] < members@.len(),
                        serializer.state() == write_members::<S>(begun, written, k as nat),
                    decreases order.len() - k,
                {
                    let p: usize = order[k];
                    assert(decreases_to!(self => self->Object_0));
                    assert(decreases_to!(self->Object_0 => members@[p as int]));
                    assert(decreases_to!(members@[p as int] => members@[p as int].1));
                    assert(decreases_to!(members@[p as int].1 => members@[p as int].1.item));
                    assert(written[k as int] == (
                        members@[p as int].0@,
                        members@[p as int].1.item@.json(),
                    ));
                    serializer.key(cow_str(&members[p].0));
                    members[p].1.item.serialize(serializer);
                    serializer.end_property();
                    k += 1;
                }
                serializer.close_object();
            },
            Thing::Array(items) => {
                let ghost written = self@.json()->Array_0;
                serializer.open_array();
                let ghost begun = serializer.state();
                let mut i: usize = 0;
                while i < items.len()
                    invariant
                        i <= items.len(),
                        *self == Thing::Array(*items),
                        written == self@.json()->Array_0,
                        self@.json() == Json::Array(written),
                        written.len() == items@.len(),
                        serializer.state() == write_items::<S>(begun, written, i as nat),
                    decreases items.len() - i,
                {
                    assert(decreases_to!(self => self->Array_0));
                    assert(decreases_to!(self->Array_0 => items@[i as int]));
                    assert(written[i as int] == items@[i as int]@.json());
                    items[i].serialize(serializer);
                    serializer.end_element();
                    i += 1;
                }
                serializer.close_array();
            },
            Thing::Number(n) => serializer.number(n),
            Thing::Bool(b) => serializer.bool(*b),
            Thing::String(s) => serializer.string(cow_str(s)),
            Thing::Null => serializer.null(),
        }
    }
}

impl Serialize for ThingOwned {
    open spec fn shape(&self) -> Json {
        self@.json()
    }

    /// Writes the tree. The members of an object are written in the order
    /// of their indices, whatever the order in which they are stored.
    fn serialize<S: Serializer>(&self, serializer: &mut S)
        decreases self,
    {
        match self {
            ThingOwned::Object(members) => {
                let ghost model = self@->Object_0;
                let ghost written = self@.json()->Object_0;
                let mut indices: Vec<usize> = Vec::new();
                let mut i: usize = 0;
                while i < members.len()
                    invariant
                        i <= members.len(),
                        *self == ThingOwned::Object(*members),
                        model == self@->Object_0,
                        indices@ == indices_of(model).take(i as int),
                    decreases members.len() - i,
                {
                    indices.push(members[i].1.index);
                    assert(indices@ =~= indices_of(model).take(i + 1));
                    i += 1;
                }
                assert(indices@ =~= indices_of(model));
                let order = index_ordered(&indices);
                serializer.open_object();
                let ghost begun = serializer.state();
                let mut k: usize = 0;
                while k < order.len()
                    invariant
                        k <= order.len(),
                        *self == ThingOwned::Object(*members),
                        model == self@->Object_0,
                        written == self@.json()->Object_0,
                        self@.json() == Json::Object(written),
                        order@ == index_order(indices_of(model), model.len()),
                        order@.len() == members@.len(),
                        forall|n: int| 0 <= n < order@.len() ==> #[trigger] order@[n] < members@.len(),
                        serializer.state() == write_members::<S>(begun, written, k as nat),
                    decreases order.len() - k,
                {
                    let p: usize = order[k];
                    assert(decreases_to!(self => self->Object_0));
                    assert(decreases_to!(self->Object_0 => members@[p as int]));
                    assert(decreases_to!(members@[p as int] => members@[p as int].1));
                    assert(decreases_to!(members@[p as int].1 => members@[p as int].1.item));
                    assert(written[k as int] == (
                        members@[p as int].0@,
                        members@[p as int].1.item@.json(),
                    ));
                    serializer.key(String::as_str(&members[p].0));
                    members[p].1.item.serialize(serializer);
                    serializer.end_property();
                    k += 1;
                }
                serializer.close_object();
            },
            ThingOwned::Array(items) => {
                let ghost written = self@.json()->Array_0;
                serializer.open_array();
                let ghost begun = serializer.state();
                let mut i: usize = 0;
                while i < items.len()
                    invariant
                        i <= items.len(),
                        *self == ThingOwned::Array(*items),
                        written == self@.json()->Array_0,
                        self@.json() == Json::Array(written),
                        written.len() == items@.len(),
                        serializer.state() == write_items::<S>(begun, written, i as nat),
                    decreases items.len() - i,
                {
                    assert(decreases_to!(self => self->Array_0));
                    assert(decreases_to!(self->Array_0 => items@[i as int]));
                    assert(written[i as int] == items@[i as int]@.json());
                    items[i].serialize(serializer);
                    serializer.end_element();
                    i += 1;
                }
                serializer.close_array();
            },
            ThingOwned::Number(n) => serializer.number(n),
            ThingOwned::Bool(b) => serializer.bool(*b),
            ThingOwned::String(s) => serializer.string(String::as_str(s)),
            ThingOwned::Null => serializer.null(),
        }
    }
}

/// `members` with `name` bound to `item`. A name that is new comes last and
/// gets the next index; one that is there keeps its place and its index.
pub open spec fn put_property(
    members: Seq<(Seq<char>, (ThingModel, usize))>,
    name: Seq<char>,
    item: ThingModel,
) -> Seq<(Seq<char>, (ThingModel, usize))> {
    let p = key_position(members, name, 0);
    if p < members.len() {
        members.update(p, (name, (item, members[p].1.1)))
    } else {
        members.push((name, (item, members.len() as usize)))
    }
}

/// What a reader that stands at `state` yields when a tree is read from
/// it, and where that leaves it.
///
/// The reader is asked what comes next. A scalar is the tree. Of an object
/// the properties are read one by one, as long as the reader has a key,
/// each value a tree of its own; of an array the elements, as long as the
/// reader has one. A part that cannot be read makes the whole fail.
pub open spec fn read_thing<'a, D: Deserializer<'a>>(state: D::State) -> Option<
    (ThingModel, D::State),
>
    decreases D::remaining(state), 0nat,
{
    match D::next_any(state) {
        None => None,
        Some((any, begun)) => if D::remaining(begun) < D::remaining(state) {
            match any {
                AnyModel::String(s) => Some((ThingModel::String(s), begun)),
                AnyModel::Bool(b) => Some((ThingModel::Bool(b), begun)),
                AnyModel::Number(n) => Some((ThingModel::Number(n), begun)),
                AnyModel::Null => Some((ThingModel::Null, begun)),
                AnyModel::Object => match read_properties::<D>(begun, Seq::empty()) {
                    None => None,
                    Some((members, end)) => Some((ThingModel::Object(members), end)),
                },
                AnyModel::Array => match read_elements::<D>(begun, Seq::empty()) {
                    None => None,
                    Some((items, end)) => Some((ThingModel::Array(items), end)),
                },
            }
        } else {
            None
        },
    }
}

/// The properties that a reader within an object yields from `state` on,
/// put into `members`, and the state behind the object.
pub open spec fn read_properties<'a, D: Deserializer<'a>>(
    state: D::State,
    members: Seq<(Seq<char>, (ThingModel, usize))>,
) -> Option<(Seq<(Seq<char>, (ThingModel, usize))>, D::State)>
    decreases D::remaining(state), 1nat,
{
    let (key, keyed) = D::next_property(state);
    match key {
        None => if D::remaining(keyed) <= D::remaining(state) {
            Some((members, keyed))
        } else {
            None
        },
        Some(name) => if D::remaining(keyed) < D::remaining(state) {
            match read_thing::<D>(keyed) {
                None => None,
                Some((item, next)) => if D::remaining(next) < D::remaining(state) {
                    read_properties::<D>(next, put_property(members, name, item))
                } else {
                    None
                },
            }
        } else {
            None
        },
    }
}

/// The elements that a reader within an array yields from `state` on,
/// added to `items`, and the state behind the array.
pub open spec fn read_elements<'a, D: Deserializer<'a>>(
    state: D::State,
    items: Seq<ThingModel>,
) -> Option<(Seq<ThingModel>, D::State)>
    decreases D::remaining(state), 1nat,
{
    let (more, placed) = D::next_array_value(state);
    if D::remaining(placed) > D::remaining(state) {
        None
    } else if more {
        match read_thing::<D>(placed) {
            None => None,
            Some((item, next)) => if D::remaining(next) < D::remaining(state) {
                read_elements::<D>(next, items.push(item))
            } else {
                None
            },
        }
    } else {
        Some((items, placed))
    }
}

/// Binds `key` to `item` in `members`: a key that is new comes last and
/// gets the next index; one that is there keeps its place and its index.
pub fn insert_property<'a>(
    members: &mut Vec<(Cow<'a, str>, ObjectProperty<'a>)>,
    key: Cow<'a, str>,
    item: Thing<'a>,
)
    ensures
        properties_model(final(members)@) == put_property(
            properties_model(old(members)@),
            key@,
            item@,
        ),
        properties_borrow(old(members)@) && key is Borrowed && item.borrows()
            ==> properties_borrow(final(members)@),
{
    let ghost before = properties_model(members@);
    let mut i: usize = 0;
    while i < members.len()
        invariant
            i <= members.len(),
            members@ == old(members)@,
            before == properties_model(members@),
            key_position(before, key@, 0) == key_position(before, key@, i as int),
        decreases members.len() - i,
    {
        if str_eq(cow_str(&members[i].0), cow_str(&key)) {
            let index = members[i].1.index;
            members.set(i, (key, ObjectProperty { item, index }));
            assert(properties_model(members@) =~= put_property(before, key@, item@));
            return ;
        }
        i += 1;
    }
    let index = members.len();
    members.push((key, ObjectProperty { item, index }));
    assert(properties_model(members@) =~= put_property(before, key@, item@));
}

impl<'a> Deserialize<'a> for Thing<'a> {
    /// Reads a tree, by the steps that `read_thing` states.
    fn deserialize<D: Deserializer<'a>>(deserializer: &mut D) -> (r: Option<Self>)
        ensures
            match read_thing::<D>(old(deserializer).state()) {
                Some((tree, state)) => r matches Some(t) && t@ == tree
                    && final(deserializer).state() == state
                    && D::remaining(state) < D::remaining(old(deserializer).state()),
                None => r is None,
            },
            D::lends(old(deserializer).state()) ==> D::lends(final(deserializer).state()) && (
            r matches Some(t) ==> t.borrows()),
        decreases D::remaining(old(deserializer).state()),
    {
        let ghost entry = deserializer.state();
        let any = match deserializer.any() {
            None => {
                return None;
            },
            Some(any) => any,
        };
        let ghost begun = deserializer.state();
        match any {
            AnyValue::Object => {
                let mut members: Vec<(Cow<'a, str>, ObjectProperty<'a>)> = Vec::new();
                assert(properties_model(members@) =~= Seq::empty());
                loop
                    invariant
                        deserializer.wf(),
                        entry == old(deserializer).state(),
                        D::next_any(entry) == Some((AnyModel::Object, begun)),
                        D::remaining(begun) < D::remaining(entry),
                        D::remaining(deserializer.state()) < D::remaining(entry),
                        D::lends(entry) ==> D::lends(deserializer.state()) && properties_borrow(
                            members@,
                        ),
                        read_properties::<D>(begun, Seq::empty()) == read_properties::<D>(
                            deserializer.state(),
                            properties_model(members@),
                        ),
                    decreases D::remaining(deserializer.state()),
                {
                    let name = match deserializer.has_property() {
                        None => {
                            let r = Thing::Object(members);
                            assert(r@->Object_0 =~= properties_model(members@));
                            return Some(r);
                        },
                        Some(name) => name,
                    };
                    let item = match Thing::deserialize(deserializer) {
                        None => {
                            return None;
                        },
                        Some(item) => item,
                    };
                    insert_property(&mut members, name, item);
                }
            },
            AnyValue::Array => {
                let mut items: Vec<Thing<'a>> = Vec::new();
                assert(things_model(items@) =~= Seq::empty());
                loop
                    invariant
                        deserializer.wf(),
                        entry == old(deserializer).state(),
                        D::next_any(entry) == Some((AnyModel::Array, begun)),
                        D::remaining(begun) < D::remaining(entry),
                        D::remaining(deserializer.state()) < D::remaining(entry),
                        D::lends(entry) ==> D::lends(deserializer.state()) && things_borrow(items@),
                        read_elements::<D>(begun, Seq::empty()) == read_elements::<D>(
                            deserializer.state(),
                            things_model(items@),
                        ),
                    decreases D::remaining(deserializer.state()),
                {
                    if !deserializer.has_array_value() {
                        let r = Thing::Array(items);
                        assert(r@->Array_0 =~= things_model(items@));
                        return Some(r);
                    }
                    let item = match Thing::deserialize(deserializer) {
                        None => {
                            return None;
                        },
                        Some(item) => item,
                    };
                    let ghost before = things_model(items@);
                    items.push(item);
                    assert(things_model(items@) =~= before.push(item@));
                }
            },
            AnyValue::Number(n) => Some(Thing::Number(n)),
            AnyValue::Bool(b) => Some(Thing::Bool(b)),
            AnyValue::String(s) => Some(Thing::String(s)),
            AnyValue::Null => Some(Thing::Null),
        }
    }
}

impl<'a> Deserialize<'a> for ThingOwned {
    /// Reads a tree as a [`Thing`] is read, and copies it.
    fn deserialize<D: Deserializer<'a>>(deserializer: &mut D) -> (r: Option<Self>)
        ensures
            match read_thing::<D>(old(deserializer).state()) {
                Some((tree, state)) => r matches Some(t) && t@ == tree
                    && final(deserializer).state() == state
                    && D::remaining(state) < D::remaining(old(deserializer).state()),
                None => r is None,
            },
    {
        match Thing::deserialize(deserializer) {
            None => None,
            Some(thing) => Some(thing.to_owned()),
        }
    }
}

impl Clone for ThingOwned {
    /// A copy of the tree.
    fn clone(&self) -> (r: Self)
        ensures
            r@ == self@,
        decreases self,
    {
        match self {
            ThingOwned::String(s) => ThingOwned::String(s.clone()),
            ThingOwned::Bool(b) => ThingOwned::Bool(*b),
            ThingOwned::Number(n) => ThingOwned::Number(n.duplicate()),
            ThingOwned::Null => ThingOwned::Null,
            ThingOwned::Object(members) => {
                let mut copy: Vec<(String, ObjectPropertyOwned)> = Vec::new();
                let mut i: usize = 0;
                while i < members.len()
                    invariant
                        i <= members.len(),
                        *self == ThingOwned::Object(*members),
                        copy@.len() == i,
                        forall|k: int|
                            0 <= k < i ==> (#[trigger] copy@[k]).0@ == members@[k].0@
                                && copy@[k].1.item@ == members@[k].1.item@ && copy@[k].1.index
                                == members@[k].1.index,
                    decreases members.len() - i,
                {
                    assert(decreases_to!(self => self->Object_0));
                    assert(decreases_to!(self->Object_0 => members@[i as int]));
                    assert(decreases_to!(members@[i as int] => members@[i as int].1));
                    assert(decreases_to!(members@[i as int].1 => members@[i as int].1.item));
                    let item = members[i].1.item.clone();
                    copy.push(
                        (members[i].0.clone(), ObjectPropertyOwned { item, index: members[i].1.index }),
                    );
                    i += 1;
                }
                let r = ThingOwned::Object(copy);
                assert(r@->Object_0 =~= self@->Object_0);
                r
            },
            ThingOwned::Array(items) => {
                let mut copy: Vec<ThingOwned> = Vec::new();
                let mut i: usize = 0;
                while i < items.len()
                    invariant
                        i <= items.len(),
                        *self == ThingOwned::Array(*items),
                        copy@.len() == i,
                        forall|k: int| 0 <= k < i ==> (#[trigger] copy@[k])@ == items@[k]@,
                    decreases items.len() - i,
                {
                    assert(decreases_to!(self => self->Array_0));
                    assert(decreases_to!(self->Array_0 => items@[i as int]));
                    let item = items[i].clone();
                    copy.push(item);
                    i += 1;
                }
                let r = ThingOwned::Array(copy);
                assert(r@->Array_0 =~= self@->Array_0);
                r
            },
        }
    }
}

impl Clone for ObjectPropertyOwned {
    /// A copy of the member.
    fn clone(&self) -> (r: Self)
        ensures
            r.item@ == self.item@,
            r.index == self.index,
    {
        ObjectPropertyOwned { item: self.item.clone(), index: self.index }
    }
}

} // verus!
