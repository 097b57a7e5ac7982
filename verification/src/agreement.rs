//! The two readers agree: where the reader of value trees reads a value,
//! the reader of the protocol reads the same, its keys in the same order.

use vstd::prelude::*;
use crate::deserialize_trait::Deserializer;
use crate::grammar::{
    items_at, key_position, lemma_key_position, lemma_skip_ws, lemma_string_tail, members_at, put,
    skip_comma, skip_ws, string_at, value_at, RECURSIVE_LIMIT,
};
use crate::json_deserialize::{start_of, JSONDeserializer, JsonCursor};
use crate::order::{in_order, lemma_ordered_is_written_as_stored};
use crate::render::json_text;
use crate::roundtrip::law_round_trip;
use crate::thing::{put_property, read_elements, read_properties, read_thing, ThingModel};
use crate::value::Json;

verus! {

/// The members of a tree stand for the members of a value: the same keys
/// in the same places, each with its place as index, and values that stand
/// for the values.
pub open spec fn members_agree(
    plain: Seq<(Seq<char>, Json)>,
    indexed: Seq<(Seq<char>, (ThingModel, usize))>,
) -> bool {
    &&& plain.len() == indexed.len()
    &&& in_order(indexed)
    &&& forall|k: int|
        0 <= k < plain.len() ==> (#[trigger] indexed[k]).0 == plain[k].0
            && indexed[k].1.0.ordered() && indexed[k].1.0.as_stored() == plain[k].1
}

/// The elements of a tree stand for the elements of a value.
pub open spec fn items_agree(plain: Seq<Json>, trees: Seq<ThingModel>) -> bool {
    &&& plain.len() == trees.len()
    &&& forall|k: int|
        0 <= k < plain.len() ==> (#[trigger] trees[k]).ordered() && trees[k].as_stored()
            == plain[k]
}

/// The cursor in `s` at `position`, `begun` values begun.
pub open spec fn cursor(s: Seq<char>, position: int, begun: nat) -> JsonCursor {
    JsonCursor { text: s, position, begun }
}

/// Binding a key keeps the members in agreement.
pub proof fn lemma_put_agrees(
    plain: Seq<(Seq<char>, Json)>,
    indexed: Seq<(Seq<char>, (ThingModel, usize))>,
    key: Seq<char>,
    value: Json,
    tree: ThingModel,
)
    requires
        members_agree(plain, indexed),
        plain.len() <= usize::MAX,
        tree.ordered(),
        tree.as_stored() == value,
    ensures
        members_agree(put(plain, key, value), put_property(indexed, key, tree)),
{
    lemma_same_position(plain, indexed, key, 0);
    lemma_key_position(plain, key, 0);
    let after = put(plain, key, value);
    let trees = put_property(indexed, key, tree);
    assert forall|k: int| 0 <= k < after.len() implies (#[trigger] trees[k]).0 == after[k].0
        && trees[k].1.0.ordered() && trees[k].1.0.as_stored() == after[k].1 && trees[k].1.1
        == k by {
        if k < plain.len() {
            assert(indexed[k].0 == plain[k].0);
            assert(indexed[k].1.1 == k);
        }
    }
}

/// Members with the same keys have each key at the same position.
pub proof fn lemma_same_position(
    plain: Seq<(Seq<char>, Json)>,
    indexed: Seq<(Seq<char>, (ThingModel, usize))>,
    key: Seq<char>,
    from: int,
)
    requires
        plain.len() == indexed.len(),
        forall|k: int| 0 <= k < plain.len() ==> (#[trigger] indexed[k]).0 == plain[k].0,
        0 <= from,
    ensures
        key_position(plain, key, from) == key_position(indexed, key, from),
    decreases plain.len() - from,
{
    if from < plain.len() {
        assert(indexed[from].0 == plain[from].0);
        if plain[from].0 != key {
            lemma_same_position(plain, indexed, key, from + 1);
        }
    }
}

/// Where a value is read, the protocol reads a tree that stands for it,
/// and ends at the same place with the same count.
pub proof fn lemma_value_agrees(s: Seq<char>, i: int, count: nat)
    requires
        s.len() <= usize::MAX,
        0 <= i <= s.len(),
    ensures
        value_at(s, i, count) matches Some((value, end, n)) ==> (read_thing::<
            JSONDeserializer<'static>,
        >(cursor(s, i, count)) matches Some((tree, state)) && state == cursor(s, end, n)
            && tree.ordered() && tree.as_stored() == value),
    decreases s.len() - i, 0nat,
{
    let j = skip_ws(s, i);
    lemma_skip_ws(s, i);
    if !(count >= RECURSIVE_LIMIT || j >= s.len()) {
        let c = s[j];
        if c == '{' {
            lemma_members_agree(s, j + 1, count + 1, Seq::empty(), Seq::empty());
            match members_at(s, j + 1, count + 1, Seq::empty()) {
                None => {},
                Some((members, end, n)) => {
                    let got = read_properties::<JSONDeserializer<'static>>(
                        cursor(s, j + 1, count + 1),
                        Seq::empty(),
                    );
                    let (properties, _) = got->0;
                    let tree = ThingModel::Object(properties);
                    assert(tree.as_stored()->Object_0 =~= members);
                },
            }
        } else if c == '[' {
            lemma_items_agree(s, j + 1, count + 1, Seq::empty(), Seq::empty());
            match items_at(s, j + 1, count + 1, Seq::empty()) {
                None => {},
                Some((items, end, n)) => {
                    let got = read_elements::<JSONDeserializer<'static>>(
                        cursor(s, j + 1, count + 1),
                        Seq::empty(),
                    );
                    let (elements, _) = got->0;
                    let tree = ThingModel::Array(elements);
                    assert(tree.as_stored()->Array_0 =~= items);
                },
            }
        } else if c == '"' {
            lemma_string_tail(s, j + 1);
        } else if c == '-' || crate::text::is_digit(c) {
            crate::grammar::lemma_number_at(s, j);
        }
    }
}

/// Where the members of an object are read, the protocol reads properties
/// that stand for them.
pub proof fn lemma_members_agree(
    s: Seq<char>,
    i: int,
    count: nat,
    plain: Seq<(Seq<char>, Json)>,
    indexed: Seq<(Seq<char>, (ThingModel, usize))>,
)
    requires
        s.len() <= usize::MAX,
        0 <= i <= s.len(),
        plain.len() <= i,
        members_agree(plain, indexed),
    ensures
        members_at(s, i, count, plain) matches Some((members, end, n)) ==> (read_properties::<
            JSONDeserializer<'static>,
        >(cursor(s, i, count), indexed) matches Some((properties, state)) && state == cursor(
            s,
            end,
            n,
        ) && members_agree(members, properties)),
    decreases s.len() - i, 1nat,
{
    let j = skip_ws(s, i);
    lemma_skip_ws(s, i);
    if j < s.len() && s[j] != '}' {
        let k = skip_ws(s, skip_comma(s, j));
        match string_at(s, k) {
            None => {},
            Some(key) => {
                let c = skip_ws(s, key.end);
                if k <= key.end <= c < s.len() && j <= k && s[c] == ':' {
                    lemma_value_agrees(s, c + 1, count);
                    match value_at(s, c + 1, count) {
                        None => {},
                        Some((value, end, m)) => {
                            if i < end <= s.len() {
                                let (tree, _) = read_thing::<JSONDeserializer<'static>>(
                                    cursor(s, c + 1, count),
                                )->0;
                                lemma_put_agrees(plain, indexed, key.content, value, tree);
                                crate::grammar::lemma_put(plain, key.content, value);
                                lemma_members_agree(
                                    s,
                                    end,
                                    m,
                                    put(plain, key.content, value),
                                    put_property(indexed, key.content, tree),
                                );
                            }
                        },
                    }
                }
            },
        }
    }
}

/// Where the elements of an array are read, the protocol reads elements
/// that stand for them.
pub proof fn lemma_items_agree(
    s: Seq<char>,
    i: int,
    count: nat,
    plain: Seq<Json>,
    trees: Seq<ThingModel>,
)
    requires
        s.len() <= usize::MAX,
        0 <= i <= s.len(),
        items_agree(plain, trees),
    ensures
        items_at(s, i, count, plain) matches Some((items, end, n)) ==> (read_elements::<
            JSONDeserializer<'static>,
        >(cursor(s, i, count), trees) matches Some((elements, state)) && state == cursor(
            s,
            end,
            n,
        ) && items_agree(items, elements)),
    decreases s.len() - i, 1nat,
{
    let j = skip_ws(s, i);
    lemma_skip_ws(s, i);
    if j < s.len() && s[j] != ']' {
        let k = skip_comma(s, j);
        lemma_value_agrees(s, k, count);
        match value_at(s, k, count) {
            None => {},
            Some((value, end, m)) => {
                if i < end <= s.len() {
                    let (tree, _) = read_thing::<JSONDeserializer<'static>>(cursor(s, k, count))->0;
                    let more = trees.push(tree);
                    assert forall|x: int| 0 <= x < more.len() implies (
                    #[trigger] more[x]).ordered() && more[x].as_stored() == plain.push(
                        value,
                    )[x] by {
                        if x < trees.len() {
                            assert(trees[x].ordered());
                        }
                    }
                    lemma_items_agree(s, end, m, plain.push(value), more);
                }
            },
        }
    }
}

/// What is written is read back by the protocol too. The text of a value
/// whose numbers are written as the grammar writes numbers, whose objects
/// have no key twice, and which holds no more values than one reading may
/// begin, is read as a tree that is written as that value again: the same
/// kinds, the same scalars, the same keys in the same order.
pub proof fn law_tree_round_trip(value: Json, indentation: nat)
    requires
        value.faithful(),
        value.size() <= RECURSIVE_LIMIT,
        json_text(value, indentation).len() <= usize::MAX,
    ensures
        read_thing::<JSONDeserializer<'static>>(
            start_of(json_text(value, indentation)),
        ) matches Some((tree, _)) && tree.json() == value,
{
    let text = json_text(value, indentation);
    law_round_trip(value, indentation);
    lemma_value_agrees(text, 0, 0);
    let (tree, _) = read_thing::<JSONDeserializer<'static>>(start_of(text))->0;
    lemma_ordered_is_written_as_stored(tree);
}

} // verus!
