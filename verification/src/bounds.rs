//! The bound on what one reading takes: no value that was read nests deeper
//! than the reading may begin values.

use vstd::prelude::*;
use crate::grammar::{
    items_at, lemma_put, lemma_skip_ws, members_at, parse, put, skip_comma, skip_ws, string_at,
    value_at, RECURSIVE_LIMIT,
};
use crate::deserialize_trait::{AnyModel, Deserializer};
use crate::json_deserialize::{start_of, JSONDeserializer, JsonCursor};
use crate::thing::{put_property, read_elements, read_properties, read_thing, ThingModel};
use crate::value::Json;

verus! {

/// Members whose values nest no deeper than `bound` nest no deeper than
/// `bound` together.
pub proof fn lemma_members_nesting_at_most(
    members: Seq<(Seq<char>, Json)>,
    upto: nat,
    bound: nat,
)
    requires
        upto <= members.len(),
        forall|k: int| 0 <= k < upto ==> (#[trigger] members[k]).1.nesting() <= bound,
    ensures
        Json::members_nesting(members, upto) <= bound,
    decreases upto,
{
    if upto > 0 {
        lemma_members_nesting_at_most(members, (upto - 1) as nat, bound);
        assert(members[upto - 1].1.nesting() <= bound);
    }
}

/// Elements that nest no deeper than `bound` nest no deeper than `bound`
/// together.
pub proof fn lemma_items_nesting_at_most(items: Seq<Json>, upto: nat, bound: nat)
    requires
        upto <= items.len(),
        forall|k: int| 0 <= k < upto ==> (#[trigger] items[k]).nesting() <= bound,
    ensures
        Json::items_nesting(items, upto) <= bound,
    decreases upto,
{
    if upto > 0 {
        lemma_items_nesting_at_most(items, (upto - 1) as nat, bound);
        assert(items[upto - 1].nesting() <= bound);
    }
}

/// A value that was read ends behind the place where it was looked for,
/// counts at least itself, keeps the count within the limit, and nests no
/// deeper than the count has grown.
pub proof fn lemma_value_at_bounds(s: Seq<char>, i: int, count: nat)
    ensures
        value_at(s, i, count) matches Some((value, end, n)) ==> {
            &&& i < end <= s.len()
            &&& count < n <= RECURSIVE_LIMIT
            &&& value.nesting() <= n - count
        },
    decreases s.len() - i, 0nat,
{
    let j = skip_ws(s, i);
    if !(count >= RECURSIVE_LIMIT || i < 0 || j < i || j >= s.len()) {
        let c = s[j];
        if c == '{' {
            lemma_members_at_bounds(s, j + 1, count + 1, Seq::empty(), count + 1);
            match members_at(s, j + 1, count + 1, Seq::empty()) {
                None => {},
                Some((members, end, n)) => {
                    lemma_members_nesting_at_most(
                        members,
                        members.len(),
                        (n - (count + 1)) as nat,
                    );
                },
            }
        } else if c == '[' {
            lemma_items_at_bounds(s, j + 1, count + 1, Seq::empty(), count + 1);
            match items_at(s, j + 1, count + 1, Seq::empty()) {
                None => {},
                Some((items, end, n)) => {
                    lemma_items_nesting_at_most(items, items.len(), (n - (count + 1)) as nat);
                },
            }
        } else if c == '"' {
            crate::grammar::lemma_string_tail(s, j + 1);
        } else if c == '-' || crate::text::is_digit(c) {
            crate::grammar::lemma_number_at(s, j);
        }
    }
}

/// The members of an object that was read: see `lemma_value_at_bounds`.
/// `base` is the count at which the object was begun.
pub proof fn lemma_members_at_bounds(
    s: Seq<char>,
    i: int,
    count: nat,
    acc: Seq<(Seq<char>, Json)>,
    base: nat,
)
    requires
        base <= count <= RECURSIVE_LIMIT,
        forall|k: int| 0 <= k < acc.len() ==> (#[trigger] acc[k]).1.nesting() <= count - base,
    ensures
        members_at(s, i, count, acc) matches Some((members, end, n)) ==> {
            &&& i < end <= s.len()
            &&& count <= n <= RECURSIVE_LIMIT
            &&& forall|k: int|
                0 <= k < members.len() ==> (#[trigger] members[k]).1.nesting() <= n - base
        },
    decreases s.len() - i, 1nat,
{
    let j = skip_ws(s, i);
    if !(i < 0 || j < i || j >= s.len()) && s[j] != '}' {
        let k = skip_ws(s, skip_comma(s, j));
        match string_at(s, k) {
            None => {},
            Some(key) => {
                let c = skip_ws(s, key.end);
                if k <= key.end <= c < s.len() && j <= k && s[c] == ':' {
                    lemma_value_at_bounds(s, c + 1, count);
                    match value_at(s, c + 1, count) {
                        None => {},
                        Some((value, end, m)) => {
                            if i < end <= s.len() {
                                let after = put(acc, key.content, value);
                                lemma_put(acc, key.content, value);
                                assert forall|x: int| 0 <= x < after.len() implies (
                                #[trigger] after[x]).1.nesting() <= m - base by {
                                    if after[x] != (key.content, value) {
                                        assert(acc[x].1.nesting() <= count - base);
                                    }
                                }
                                lemma_members_at_bounds(s, end, m, after, base);
                            }
                        },
                    }
                }
            },
        }
    }
}

/// The elements of an array that was read: see `lemma_value_at_bounds`.
/// `base` is the count at which the array was begun.
pub proof fn lemma_items_at_bounds(s: Seq<char>, i: int, count: nat, acc: Seq<Json>, base: nat)
    requires
        base <= count <= RECURSIVE_LIMIT,
        forall|k: int| 0 <= k < acc.len() ==> (#[trigger] acc[k]).nesting() <= count - base,
    ensures
        items_at(s, i, count, acc) matches Some((items, end, n)) ==> {
            &&& i < end <= s.len()
            &&& count <= n <= RECURSIVE_LIMIT
            &&& forall|k: int| 0 <= k < items.len() ==> (#[trigger] items[k]).nesting() <= n - base
        },
    decreases s.len() - i, 1nat,
{
    let j = skip_ws(s, i);
    if !(i < 0 || j < i || j >= s.len()) && s[j] != ']' {
        let k = skip_comma(s, j);
        lemma_value_at_bounds(s, k, count);
        match value_at(s, k, count) {
            None => {},
            Some((value, end, m)) => {
                if i < end <= s.len() {
                    let after = acc.push(value);
                    assert forall|x: int| 0 <= x < after.len() implies (
                    #[trigger] after[x]).nesting() <= m - base by {
                        if x < acc.len() {
                            assert(acc[x].nesting() <= count - base);
                        }
                    }
                    lemma_items_at_bounds(s, end, m, after, base);
                }
            },
        }
    }
}

/// Nesting is bounded. Whatever the text, a value that is read from it
/// nests no deeper than the limit: a text that nests deeper is not read.
pub proof fn law_nesting_bound(s: Seq<char>)
    ensures
        parse(s) matches Some(value) ==> value.nesting() <= RECURSIVE_LIMIT,
{
    lemma_value_at_bounds(s, 0, 0);
}

/// A tree that was read from text counts at least itself, keeps the count
/// within the limit, and nests no deeper than the count has grown.
pub proof fn lemma_read_thing_bounds(state: JsonCursor)
    requires
        0 <= state.position <= state.text.len(),
    ensures
        read_thing::<JSONDeserializer<'static>>(state) matches Some((tree, end)) ==> {
            &&& end.text == state.text
            &&& 0 <= end.position <= end.text.len()
            &&& state.begun < end.begun <= RECURSIVE_LIMIT
            &&& tree.as_stored().nesting() <= end.begun - state.begun
        },
    decreases JSONDeserializer::<'static>::remaining(state), 0nat,
{
    let s = state.text;
    lemma_skip_ws(s, state.position);
    match JSONDeserializer::<'static>::next_any(state) {
        None => {},
        Some((any, begun)) => {
            let j = skip_ws(s, state.position);
            if s[j] == '"' {
                crate::grammar::lemma_string_tail(s, j + 1);
            } else if s[j] == '-' || crate::text::is_digit(s[j]) {
                crate::grammar::lemma_number_at(s, j);
            }
            if JSONDeserializer::<'static>::remaining(begun) < JSONDeserializer::<
                'static,
            >::remaining(state) {
                match any {
                    AnyModel::Object => {
                        lemma_read_properties_bounds(begun, Seq::empty(), begun.begun);
                        match read_properties::<JSONDeserializer<'static>>(begun, Seq::empty()) {
                            None => {},
                            Some((members, end)) => {
                                let tree = ThingModel::Object(members);
                                let stored = tree.as_stored()->Object_0;
                                assert forall|k: int| 0 <= k < stored.len() implies (
                                #[trigger] stored[k]).1.nesting() <= end.begun - begun.begun by {
                                    assert(members[k].1.0.as_stored().nesting() <= end.begun
                                        - begun.begun);
                                }
                                lemma_members_nesting_at_most(
                                    stored,
                                    stored.len(),
                                    (end.begun - begun.begun) as nat,
                                );
                            },
                        }
                    },
                    AnyModel::Array => {
                        lemma_read_elements_bounds(begun, Seq::empty(), begun.begun);
                        match read_elements::<JSONDeserializer<'static>>(begun, Seq::empty()) {
                            None => {},
                            Some((items, end)) => {
                                let tree = ThingModel::Array(items);
                                let stored = tree.as_stored()->Array_0;
                                assert forall|k: int| 0 <= k < stored.len() implies (
                                #[trigger] stored[k]).nesting() <= end.begun - begun.begun by {
                                    assert(items[k].as_stored().nesting() <= end.begun
                                        - begun.begun);
                                }
                                lemma_items_nesting_at_most(
                                    stored,
                                    stored.len(),
                                    (end.begun - begun.begun) as nat,
                                );
                            },
                        }
                    },
                    _ => {},
                }
            }
        },
    }
}

/// The properties of an object that was read from text: see
/// `lemma_read_thing_bounds`. `base` is the count at which the object was
/// begun.
pub proof fn lemma_read_properties_bounds(
    state: JsonCursor,
    members: Seq<(Seq<char>, (ThingModel, usize))>,
    base: nat,
)
    requires
        0 <= state.position <= state.text.len(),
        base <= state.begun <= RECURSIVE_LIMIT,
        forall|k: int|
            0 <= k < members.len() ==> (#[trigger] members[k]).1.0.as_stored().nesting()
                <= state.begun - base,
    ensures
        read_properties::<JSONDeserializer<'static>>(state, members) matches Some(
            (all, end),
        ) ==> {
            &&& end.text == state.text
            &&& 0 <= end.position <= end.text.len()
            &&& state.begun <= end.begun <= RECURSIVE_LIMIT
            &&& forall|k: int|
                0 <= k < all.len() ==> (#[trigger] all[k]).1.0.as_stored().nesting() <= end.begun
                    - base
        },
    decreases JSONDeserializer::<'static>::remaining(state), 1nat,
{
    let s = state.text;
    lemma_skip_ws(s, state.position);
    let j = skip_ws(s, state.position);
    let (key, keyed) = JSONDeserializer::<'static>::next_property(state);
    if j < s.len() && s[j] != '}' {
        let k = skip_ws(s, skip_comma(s, j));
        lemma_skip_ws(s, skip_comma(s, j));
        crate::grammar::lemma_string_tail(s, k + 1);
        match string_at(s, k) {
            None => {},
            Some(lit) => {
                lemma_skip_ws(s, lit.end);
            },
        }
    }
    match key {
        None => {},
        Some(name) => {
            if JSONDeserializer::<'static>::remaining(keyed) < JSONDeserializer::<
                'static,
            >::remaining(state) {
                lemma_read_thing_bounds(keyed);
                match read_thing::<JSONDeserializer<'static>>(keyed) {
                    None => {},
                    Some((item, next)) => {
                        if JSONDeserializer::<'static>::remaining(next) < JSONDeserializer::<
                            'static,
                        >::remaining(state) {
                            let after = put_property(members, name, item);
                            crate::grammar::lemma_key_position(members, name, 0);
                            assert forall|x: int| 0 <= x < after.len() implies (
                            #[trigger] after[x]).1.0.as_stored().nesting() <= next.begun
                                - base by {
                                if x < members.len() {
                                    assert(members[x].1.0.as_stored().nesting() <= state.begun
                                        - base);
                                }
                            }
                            lemma_read_properties_bounds(next, after, base);
                        }
                    },
                }
            }
        },
    }
}

/// The elements of an array that was read from text: see
/// `lemma_read_thing_bounds`. `base` is the count at which the array was
/// begun.
pub proof fn lemma_read_elements_bounds(state: JsonCursor, items: Seq<ThingModel>, base: nat)
    requires
        0 <= state.position <= state.text.len(),
        base <= state.begun <= RECURSIVE_LIMIT,
        forall|k: int|
            0 <= k < items.len() ==> (#[trigger] items[k]).as_stored().nesting() <= state.begun
                - base,
    ensures
        read_elements::<JSONDeserializer<'static>>(state, items) matches Some((all, end)) ==> {
            &&& end.text == state.text
            &&& 0 <= end.position <= end.text.len()
            &&& state.begun <= end.begun <= RECURSIVE_LIMIT
            &&& forall|k: int|
                0 <= k < all.len() ==> (#[trigger] all[k]).as_stored().nesting() <= end.begun
                    - base
        },
    decreases JSONDeserializer::<'static>::remaining(state), 1nat,
{
    let s = state.text;
    lemma_skip_ws(s, state.position);
    let (more, placed) = JSONDeserializer::<'static>::next_array_value(state);
    if JSONDeserializer::<'static>::remaining(placed) <= JSONDeserializer::<'static>::remaining(
        state,
    ) && more {
        lemma_read_thing_bounds(placed);
        match read_thing::<JSONDeserializer<'static>>(placed) {
            None => {},
            Some((item, next)) => {
                if JSONDeserializer::<'static>::remaining(next) < JSONDeserializer::<
                    'static,
                >::remaining(state) {
                    let after = items.push(item);
                    assert forall|x: int| 0 <= x < after.len() implies (
                    #[trigger] after[x]).as_stored().nesting() <= next.begun - base by {
                        if x < items.len() {
                            assert(items[x].as_stored().nesting() <= state.begun - base);
                        }
                    }
                    lemma_read_elements_bounds(next, after, base);
                }
            },
        }
    }
}

/// Nesting is bounded for trees too. Whatever the text, a tree that is
/// read from it nests no deeper than the limit.
pub proof fn law_tree_nesting_bound(s: Seq<char>)
    ensures
        read_thing::<JSONDeserializer<'static>>(start_of(s)) matches Some((tree, _))
            ==> tree.as_stored().nesting() <= RECURSIVE_LIMIT,
{
    lemma_read_thing_bounds(start_of(s));
}

} // verus!
