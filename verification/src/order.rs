//! The order of keys: a tree that was read is written with its keys in the
//! order in which they were read.

use vstd::prelude::*;
use crate::deserialize_trait::{AnyModel, Deserializer};
use crate::grammar::{key_position, lemma_key_position};
use crate::thing::{
    index_order, indices_of, insert_by_index, put_property, read_elements, read_properties,
    read_thing, ThingModel,
};
use crate::value::Json;

verus! {

/// Each member has its own position as its index.
pub open spec fn in_order(members: Seq<(Seq<char>, (ThingModel, usize))>) -> bool {
    forall|k: int| 0 <= k < members.len() ==> (#[trigger] members[k]).1.1 == k
}

impl ThingModel {
    /// In every object of the tree each member has its own position as its
    /// index: the members are stored in the order of their indices.
    pub open spec fn ordered(self) -> bool
        decreases self,
    {
        match self {
            ThingModel::Object(members) => in_order(members) && forall|k: int|
                0 <= k < members.len() ==> (#[trigger] members[k]).1.0.ordered(),
            ThingModel::Array(items) => forall|k: int|
                0 <= k < items.len() ==> (#[trigger] items[k]).ordered(),
            _ => true,
        }
    }

    /// The value that the tree stands for when the members of each object
    /// are taken in the order in which they are stored.
    pub open spec fn as_stored(self) -> Json
        decreases self,
    {
        match self {
            ThingModel::String(s) => Json::String(s),
            ThingModel::Bool(b) => Json::Boolean(b),
            ThingModel::Number(n) => Json::Number(n),
            ThingModel::Null => Json::Null,
            ThingModel::Array(items) => Json::Array(
                Seq::new(
                    items.len(),
                    |i: int|
                        if 0 <= i < items.len() {
                            items[i].as_stored()
                        } else {
                            Json::Null
                        },
                ),
            ),
            ThingModel::Object(members) => Json::Object(
                Seq::new(
                    members.len(),
                    |i: int|
                        (
                            members[i].0,
                            if 0 <= i < members.len() {
                                members[i].1.0.as_stored()
                            } else {
                                Json::Null
                            },
                        ),
                ),
            ),
        }
    }
}

/// Where each position holds its own number as index, ordering by index
/// changes nothing.
pub proof fn lemma_index_order_of_positions(indices: Seq<usize>, upto: nat)
    requires
        upto <= indices.len(),
        forall|k: int| 0 <= k < indices.len() ==> #[trigger] indices[k] == k,
    ensures
        index_order(indices, upto) == Seq::new(upto, |k: int| k as usize),
    decreases upto,
{
    if upto > 0 {
        lemma_index_order_of_positions(indices, (upto - 1) as nat);
        let before = index_order(indices, (upto - 1) as nat);
        let p = (upto - 1) as usize;
        if before.len() > 0 {
            assert(indices[upto - 2] == upto - 2);
            assert(indices[upto - 1] == upto - 1);
            assert(before.last() == upto - 2);
            assert(indices[before.last() as int] <= indices[p as int]);
        }
        assert(insert_by_index(indices, before, p) =~= Seq::new(upto, |k: int| k as usize));
    } else {
        assert(index_order(indices, upto) =~= Seq::new(upto, |k: int| k as usize));
    }
}

/// A tree whose members are stored in the order of their indices is written
/// in the order in which its members are stored.
pub proof fn lemma_ordered_is_written_as_stored(tree: ThingModel)
    requires
        tree.ordered(),
    ensures
        tree.json() == tree.as_stored(),
    decreases tree,
{
    match tree {
        ThingModel::Array(items) => {
            assert forall|i: int| 0 <= i < items.len() implies items[i].json()
                == items[i].as_stored() by {
                lemma_ordered_is_written_as_stored(items[i]);
            }
            assert(tree.json()->Array_0 =~= tree.as_stored()->Array_0);
        },
        ThingModel::Object(members) => {
            let indices = indices_of(members);
            lemma_index_order_of_positions(indices, members.len());
            assert forall|i: int| 0 <= i < members.len() implies members[i].1.0.json()
                == members[i].1.0.as_stored() by {
                lemma_ordered_is_written_as_stored(members[i].1.0);
            }
            assert(tree.json()->Object_0 =~= tree.as_stored()->Object_0);
        },
        _ => {},
    }
}

/// Binding a name keeps the members in the order of their indices.
pub proof fn lemma_put_property_in_order(
    members: Seq<(Seq<char>, (ThingModel, usize))>,
    name: Seq<char>,
    item: ThingModel,
)
    requires
        in_order(members),
        members.len() <= usize::MAX,
    ensures
        in_order(put_property(members, name, item)),
        put_property(members, name, item).len() <= members.len() + 1,
        forall|k: int|
            0 <= k < put_property(members, name, item).len() ==> {
                let m = #[trigger] put_property(members, name, item)[k];
                m.1.0 == item || (k < members.len() && m.1.0 == members[k].1.0)
            },
{
    let p = key_position(members, name, 0);
    lemma_key_position(members, name, 0);
    let after = put_property(members, name, item);
    assert forall|k: int| 0 <= k < after.len() implies (#[trigger] after[k]).1.1 == k by {
        if k < members.len() {
            assert(members[k].1.1 == k);
        }
    }
}

/// A tree read from any reader has the members of each of its objects
/// stored in the order of their indices.
pub proof fn lemma_read_thing_ordered<'a, D: Deserializer<'a>>(state: D::State)
    requires
        D::remaining(state) <= usize::MAX,
    ensures
        read_thing::<D>(state) matches Some((tree, _)) ==> tree.ordered(),
    decreases D::remaining(state), 0nat,
{
    match D::next_any(state) {
        None => {},
        Some((any, begun)) => {
            if D::remaining(begun) < D::remaining(state) {
                match any {
                    AnyModel::Object => {
                        lemma_read_properties_ordered::<D>(begun, Seq::empty());
                    },
                    AnyModel::Array => {
                        lemma_read_elements_ordered::<D>(begun, Seq::empty());
                    },
                    _ => {},
                }
            }
        },
    }
}

/// The properties read into members that are in order are in order.
pub proof fn lemma_read_properties_ordered<'a, D: Deserializer<'a>>(
    state: D::State,
    members: Seq<(Seq<char>, (ThingModel, usize))>,
)
    requires
        members.len() + D::remaining(state) <= usize::MAX,
        in_order(members),
        forall|k: int| 0 <= k < members.len() ==> (#[trigger] members[k]).1.0.ordered(),
    ensures
        read_properties::<D>(state, members) matches Some((all, _)) ==> ThingModel::Object(
            all,
        ).ordered(),
    decreases D::remaining(state), 1nat,
{
    let (key, keyed) = D::next_property(state);
    match key {
        None => {},
        Some(name) => {
            if D::remaining(keyed) < D::remaining(state) {
                lemma_read_thing_ordered::<D>(keyed);
                match read_thing::<D>(keyed) {
                    None => {},
                    Some((item, next)) => {
                        if D::remaining(next) < D::remaining(state) {
                            lemma_put_property_in_order(members, name, item);
                            let after = put_property(members, name, item);
                            assert forall|k: int| 0 <= k < after.len() implies (
                            #[trigger] after[k]).1.0.ordered() by {
                                if k < members.len() {
                                    assert(members[k].1.0.ordered());
                                }
                            }
                            lemma_read_properties_ordered::<D>(next, after);
                        }
                    },
                }
            }
        },
    }
}

/// The elements read behind elements that are in order are in order.
pub proof fn lemma_read_elements_ordered<'a, D: Deserializer<'a>>(
    state: D::State,
    items: Seq<ThingModel>,
)
    requires
        D::remaining(state) <= usize::MAX,
        forall|k: int| 0 <= k < items.len() ==> (#[trigger] items[k]).ordered(),
    ensures
        read_elements::<D>(state, items) matches Some((all, _)) ==> ThingModel::Array(
            all,
        ).ordered(),
    decreases D::remaining(state), 1nat,
{
    let (more, placed) = D::next_array_value(state);
    if D::remaining(placed) <= D::remaining(state) && more {
        lemma_read_thing_ordered::<D>(placed);
        match read_thing::<D>(placed) {
            None => {},
            Some((item, next)) => {
                if D::remaining(next) < D::remaining(state) {
                    let after = items.push(item);
                    assert forall|k: int| 0 <= k < after.len() implies (
                    #[trigger] after[k]).ordered() by {
                        if k < items.len() {
                            assert(items[k].ordered());
                        }
                    }
                    lemma_read_elements_ordered::<D>(next, after);
                }
            },
        }
    }
}

/// The order of keys is kept. A tree read from any reader is written, to
/// any format, with the members of each object in the order in which they
/// are stored, and that is the order in which their keys were first read:
/// a key that is new is put behind all others, one that comes again stays
/// where it is.
pub proof fn law_key_order<'a, D: Deserializer<'a>>(state: D::State)
    requires
        D::remaining(state) <= usize::MAX,
    ensures
        read_thing::<D>(state) matches Some((tree, _)) ==> tree.json() == tree.as_stored(),
{
    lemma_read_thing_ordered::<D>(state);
    match read_thing::<D>(state) {
        Some((tree, _)) => {
            lemma_ordered_is_written_as_stored(tree);
        },
        None => {},
    }
}

} // verus!
