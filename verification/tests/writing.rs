use kserde::deserialize_trait::Deserializer;
use kserde::from_str::from_str;
use kserde::json_deserialize::JSONDeserializer;
use kserde::json_serialize::{to_json_string, JSONSerializer};
use kserde::number::Number;
use kserde::serialize_trait::{
    ArraySerializer, AsArraySerializer, AsObjectSerializer, ObjectSerializer, Serialize, Serializer,
};
use kserde::thing::{ObjectProperty, Thing, ThingOwned};
use kserde::to_string::{encode_value, indent, nests_within, to_string};
use kserde::value::Value;
use std::borrow::Cow;

fn text_of(value: &Value) -> String {
    let mut s = String::new();
    encode_value(&mut s, 0, value);
    s
}

#[test]
fn indent_appends_spaces() {
    let mut s = String::from("x");
    indent(&mut s, 3);
    assert_eq!(s, "x   ");
    indent(&mut s, 0);
    assert_eq!(s, "x   ");
}

#[test]
fn scalars_are_written_bare() {
    assert_eq!(text_of(&Value::Boolean(true)), "true");
    assert_eq!(text_of(&Value::Boolean(false)), "false");
    assert_eq!(text_of(&Value::Null), "null");
    assert_eq!(text_of(&Value::String(Cow::Borrowed("hi"))), "\"hi\"");
    assert_eq!(text_of(&Value::Number(Number::from_i64(-17))), "-17");
}

#[test]
fn empty_structures_are_closed_at_once() {
    assert_eq!(text_of(&Value::Object(Vec::new())), "{}");
    assert_eq!(text_of(&Value::Array(Vec::new())), "[]");
}

#[test]
fn array_stands_on_one_line() {
    let value = from_str("[1,2 , [3], []]").unwrap();
    assert_eq!(text_of(&value), "[1, 2, [3], []]");
}

#[test]
fn object_members_stand_one_per_line() {
    let value = from_str("{\"a\":1,\"b\":{\"c\":[true,null],\"d\":{}},\"e\":\"x\"}").unwrap();
    let expected = "{\n    \"a\": 1,\n    \"b\": {\n        \"c\": [true, null],\n        \"d\": {}\n    },\n    \"e\": \"x\"\n}";
    assert_eq!(text_of(&value), expected);
}

#[test]
fn encode_value_starts_at_the_given_column() {
    let value = from_str("{\"a\":1}").unwrap();
    let mut s = String::from(">");
    encode_value(&mut s, 2, &value);
    assert_eq!(s, ">{\n      \"a\": 1\n  }");
}

#[test]
fn strings_are_escaped_where_they_must_be() {
    assert_eq!(text_of(&Value::String(Cow::Borrowed("a\"b"))), "\"a\\\"b\"");
    assert_eq!(text_of(&Value::String(Cow::Borrowed("a\\b"))), "\"a\\\\b\"");
    assert_eq!(
        text_of(&Value::String(Cow::Borrowed("\n\t\r\u{8}\u{c}"))),
        "\"\\n\\t\\r\\b\\f\""
    );
    assert_eq!(text_of(&Value::String(Cow::Borrowed("a/b \u{e9}\u{1F600}"))), "\"a/b \u{e9}\u{1F600}\"");
    assert_eq!(to_json_string(&"q\"q"), "\"q\\\"q\"");
}

#[test]
fn escaped_texts_round_trip() {
    let text = "quote \" backslash \\ break \n tab \t bell \u{7} smile \u{1F600}";
    let value = Value::Object(vec![(
        Cow::Borrowed("k\"e\\y\n"),
        Value::Array(vec![Value::String(Cow::Borrowed(text))]),
    )]);
    let written = text_of(&value);
    let read = from_str(&written).unwrap();
    let members = read.as_object().unwrap();
    assert_eq!(members.len(), 1);
    assert_eq!(members[0].0, "k\"e\\y\n");
    assert_eq!(members[0].1.as_array().unwrap()[0].as_string(), Some(text));
    assert_eq!(text_of(&read), written);
    let thing = Thing::from_json(&written).unwrap();
    assert_eq!(to_json_string(&thing), written);
}

#[test]
fn value_round_trips() {
    let source = "{\n    \"name\": \"Odysseus\",\n    \"age\": 43,\n    \"tags\": [\"a\", -0.5, 1e2, true, false, null],\n    \"empty\": {},\n    \"none\": []\n}";
    let value = from_str(source).unwrap();
    let text = text_of(&value);
    assert_eq!(text, source);
    let again = from_str(&text).unwrap();
    assert_eq!(text_of(&again), source);
    assert_eq!(again.get("name").unwrap().as_string(), Some("Odysseus"));
    assert_eq!(again.get("age").unwrap().as_number().unwrap().as_i64(), Some(43));
    assert_eq!(again.get("tags").unwrap().as_array().unwrap().len(), 6);
}

#[test]
fn serializer_writes_scalars() {
    let mut s = JSONSerializer::new();
    s.string("a");
    s.bool(true);
    s.bool(false);
    s.null();
    s.i64(-5);
    s.number(&Number::from_i64(12));
    assert_eq!(s.done(), "\"a\"truefalsenull-512");
}

#[test]
fn integers_are_written_in_full() {
    assert_eq!(to_json_string(&0i64), "0");
    assert_eq!(to_json_string(&i64::MAX), "9223372036854775807");
    assert_eq!(to_json_string(&i64::MIN), "-9223372036854775808");
    assert_eq!(to_json_string(&-1i32), "-1");
    assert_eq!(to_json_string(&1000i32), "1000");
}

#[test]
fn plain_types_are_written() {
    assert_eq!(to_json_string(&"text"), "\"text\"");
    assert_eq!(to_json_string(&String::from("owned")), "\"owned\"");
    assert_eq!(to_json_string(&true), "true");
    assert_eq!(to_json_string(&vec![1i64, 2, 3]), "[1, 2, 3]");
    assert_eq!(to_json_string(&Vec::<i64>::new()), "[]");
    assert_eq!(to_json_string(&Some(4i64)), "4");
    assert_eq!(to_json_string(&Option::<i64>::None), "null");
    assert_eq!(to_json_string(&vec![Some(true), None]), "[true, null]");
    assert_eq!(to_json_string(&vec![vec![1i64], vec![]]), "[[1], []]");
    assert_eq!(to_json_string(&[1i32, 2]), "[1, 2]");
    assert_eq!(to_json_string(&0usize), "0");
    assert_eq!(to_json_string(&usize::MAX), usize::MAX.to_string());
    assert_eq!(to_json_string(&Number::from_u64(u64::MAX)), "18446744073709551615");
    let slice: &[bool] = &[true, false];
    let mut serializer = JSONSerializer::new();
    slice.serialize(&mut serializer);
    assert_eq!(serializer.done(), "[true, false]");
}

#[test]
fn flat_steps_build_an_object() {
    let mut s = JSONSerializer::new();
    s.open_object();
    s.key("a");
    s.i64(1);
    s.end_property();
    s.key("b");
    s.open_array();
    s.bool(true);
    s.end_element();
    s.close_array();
    s.end_property();
    s.close_object();
    assert_eq!(s.done(), "{\n    \"a\": 1,\n    \"b\": [true]\n}");
}

#[test]
fn builders_write_an_object() {
    let mut s = JSONSerializer::new();
    let mut object = s.begin_object();
    object.property("name", &"Odysseus");
    object.property("age", &43i64);
    assert!(object.need_to_pop_comma);
    object.end_object();
    assert_eq!(s.done(), "{\n    \"name\": \"Odysseus\",\n    \"age\": 43\n}");
}

#[test]
fn builders_write_an_array() {
    let mut s = JSONSerializer::new();
    let mut array = s.begin_array();
    assert!(!array.need_to_pop_comma);
    array.value(&1i64);
    array.value(&"two");
    array.end_array();
    assert_eq!(s.done(), "[1, \"two\"]");
}

#[test]
fn empty_builders_close_at_once() {
    let mut s = JSONSerializer::new();
    s.begin_object().end_object();
    s.begin_array().end_array();
    assert_eq!(s.done(), "{}[]");
}

#[test]
fn serializer_indent_follows_the_nesting() {
    let mut s = JSONSerializer::new();
    s.open_object();
    s.open_object();
    s.indent();
    assert_eq!(s.done(), "{\n{\n        ");
}

#[test]
fn thing_keeps_the_order_of_its_keys() {
    let source = "{\"zeta\": 1, \"alpha\": 2, \"mid\": {\"y\": true, \"x\": false}, \"beta\": [3]}";
    let thing = Thing::from_json(source).unwrap();
    let text = to_json_string(&thing);
    let expected = "{\n    \"zeta\": 1,\n    \"alpha\": 2,\n    \"mid\": {\n        \"y\": true,\n        \"x\": false\n    },\n    \"beta\": [3]\n}";
    assert_eq!(text, expected);
    let again = Thing::from_json(&text).unwrap();
    assert_eq!(to_json_string(&again), expected);
}

#[test]
fn thing_is_written_by_index_not_by_storage() {
    let thing = Thing::Object(vec![
        (Cow::Borrowed("third"), ObjectProperty { item: Thing::Bool(true), index: 2 }),
        (Cow::Borrowed("first"), ObjectProperty { item: Thing::Null, index: 0 }),
        (Cow::Borrowed("second"), ObjectProperty { item: Thing::Number(Number::from_i64(7)), index: 1 }),
    ]);
    let expected = "{\n    \"first\": null,\n    \"second\": 7,\n    \"third\": true\n}";
    assert_eq!(to_json_string(&thing), expected);
    assert_eq!(to_json_string(&thing.to_owned()), expected);
}

#[test]
fn equal_indices_keep_their_storage_order() {
    let thing = Thing::Object(vec![
        (Cow::Borrowed("b"), ObjectProperty { item: Thing::Null, index: 1 }),
        (Cow::Borrowed("a"), ObjectProperty { item: Thing::Null, index: 1 }),
        (Cow::Borrowed("c"), ObjectProperty { item: Thing::Null, index: 0 }),
    ]);
    assert_eq!(to_json_string(&thing), "{\n    \"c\": null,\n    \"b\": null,\n    \"a\": null\n}");
}

#[test]
fn thing_indices_count_first_sightings() {
    let thing = Thing::from_json("{\"a\":1,\"b\":2,\"a\":3,\"c\":4}").unwrap();
    let members = thing.object().unwrap();
    assert_eq!(members.len(), 3);
    let keys: Vec<&str> = members.iter().map(|m| &*m.0).collect();
    assert_eq!(keys, vec!["a", "b", "c"]);
    let indices: Vec<usize> = members.iter().map(|m| m.1.index).collect();
    assert_eq!(indices, vec![0, 1, 2]);
    assert_eq!(members[0].1.item.number().unwrap().as_i64(), Some(3));
}

#[test]
fn thing_scalars_are_read() {
    assert_eq!(Thing::from_json(" true").unwrap().bool(), Some(true));
    assert_eq!(Thing::from_json("false").unwrap().bool(), Some(false));
    assert!(matches!(Thing::from_json("null").unwrap(), Thing::Null));
    assert_eq!(Thing::from_json("\"s\"").unwrap().string().map(|c| &**c), Some("s"));
    assert_eq!(Thing::from_json("-12").unwrap().number().unwrap().as_i64(), Some(-12));
    assert_eq!(Thing::from_json("[1, [2]]").unwrap().array().unwrap().len(), 2);
    assert!(Thing::from_json("").is_none());
    assert!(Thing::from_json("@").is_none());
    assert!(Thing::from_json("[1, @]").is_none());
    assert!(Thing::from_json("{\"a\": @}").is_none());
}

#[test]
fn thing_getters_tell_the_kinds_apart() {
    let thing = Thing::from_json("[1]").unwrap();
    assert!(thing.string().is_none());
    assert!(thing.bool().is_none());
    assert!(thing.number().is_none());
    assert!(thing.object().is_none());
    assert!(thing.array().is_some());
}

#[test]
fn thing_borrows_plain_text() {
    let source = String::from("[\"plain\", \"esc\\n\"]");
    let thing = Thing::from_json(&source).unwrap();
    let items = thing.array().unwrap();
    assert!(matches!(items[0].string(), Some(Cow::Borrowed("plain"))));
    assert!(matches!(items[1].string(), Some(Cow::Owned(_))));
}

#[test]
fn thing_ends_an_array_where_the_text_ends() {
    let thing = Thing::from_json("[1, 2").unwrap();
    assert_eq!(thing.array().unwrap().len(), 2);
    let thing = Thing::from_json("{\"a\": 1").unwrap();
    assert_eq!(thing.object().unwrap().len(), 1);
}

#[test]
fn thing_deep_nesting_fails() {
    let source = "[".repeat(2000);
    assert!(Thing::from_json(&source).is_none());
    let mut nested = "[".repeat(1024);
    nested.push_str(&"]".repeat(1024));
    assert!(Thing::from_json(&nested).is_some());
    let mut deeper = "[".repeat(1025);
    deeper.push_str(&"]".repeat(1025));
    assert!(Thing::from_json(&deeper).is_none());
}

#[test]
fn owned_thing_outlives_its_source() {
    let owned: ThingOwned = {
        let source = String::from("{\"k\": [\"v\", 1.5]}");
        ThingOwned::from_json(&source).unwrap()
    };
    assert_eq!(to_json_string(&owned), "{\n    \"k\": [\"v\", 1.5]\n}");
    match &owned {
        ThingOwned::Object(members) => {
            assert_eq!(members[0].0, "k");
            assert_eq!(members[0].1.index, 0);
        },
        _ => panic!("an object was read"),
    }
}

#[test]
fn to_owned_copies_the_whole_tree() {
    let source = String::from("{\"b\": {\"x\": \"t\\n\"}, \"a\": [null, true, 3]}");
    let thing = Thing::from_json(&source).unwrap();
    let owned = thing.to_owned();
    assert_eq!(to_json_string(&owned), to_json_string(&thing));
    match owned {
        ThingOwned::Object(members) => {
            assert_eq!(members.len(), 2);
            assert_eq!(members[1].0, "a");
            assert_eq!(members[1].1.index, 1);
        },
        _ => panic!("an object was copied"),
    }
}

#[test]
fn deserializer_starts_at_the_start() {
    let mut d = JSONDeserializer::new(" 12 true");
    assert_eq!(d.i64(), Some(12));
    assert_eq!(d.bool(), Some(true));
    assert_eq!(d.bool(), None);
}

struct Pair {
    left: bool,
    right: Vec<i64>,
}

impl Serialize for Pair {
    fn serialize<S: Serializer>(&self, serializer: &mut S) {
        serializer.open_object();
        serializer.key("left");
        self.left.serialize(serializer);
        serializer.end_property();
        serializer.key("right");
        self.right.serialize(serializer);
        serializer.end_property();
        serializer.close_object();
    }
}

#[test]
fn a_type_of_the_caller_describes_itself() {
    let pair = Pair { left: true, right: vec![1, 2] };
    assert_eq!(to_json_string(&pair), "{\n    \"left\": true,\n    \"right\": [1, 2]\n}");
    assert_eq!(to_json_string(&vec![pair]), "[{\n    \"left\": true,\n    \"right\": [1, 2]\n}]");
}

#[test]
fn to_string_is_the_text_at_the_first_column() {
    let value = from_str("{\"a\": [1, 2]}").unwrap();
    assert_eq!(to_string(&value).unwrap(), "{\n    \"a\": [1, 2]\n}");
    assert_eq!(to_string(&Value::Null).unwrap(), "null");
}

#[test]
fn nesting_is_counted_in_structures() {
    let value = from_str("[[1], {\"a\": [[]]}]").unwrap();
    assert!(nests_within(&value, 4));
    assert!(!nests_within(&value, 3));
    assert!(nests_within(&Value::Null, 0));
    assert!(!nests_within(&Value::Array(Vec::new()), 0));
    assert!(nests_within(&Value::Array(Vec::new()), 1));
}

#[test]
fn value_writes_itself_to_a_serializer() {
    let value = from_str("{\"b\": [null, \"x\"], \"a\": -1.5e3}").unwrap();
    assert_eq!(to_json_string(&value), "{\n    \"b\": [null, \"x\"],\n    \"a\": -1.5e3\n}");
    assert_eq!(to_json_string(&value), to_string(&value).unwrap());
}

#[test]
fn copies_are_written_alike() {
    let source = String::from("{\"a\": [1.5, \"x\\n\", null], \"b\": {\"c\": true}}");
    let value = from_str(&source).unwrap();
    let copy = value.clone();
    assert_eq!(text_of(&copy), text_of(&value));
    assert!(matches!(copy.get("b").unwrap().get("c"), Some(Value::Boolean(true))));
    let owned = ThingOwned::from_json(&source).unwrap();
    let again = owned.clone();
    assert_eq!(to_json_string(&again), to_json_string(&owned));
}

struct Dice(u64);

impl Dice {
    fn roll(&mut self, sides: u64) -> u64 {
        self.0 = self.0.wrapping_mul(6364136223846793005).wrapping_add(1442695040888963407);
        (self.0 >> 33) % sides
    }

    fn text(&mut self) -> String {
        let alphabet = ['a', 'Z', ' ', '"', '\\', '/', '\n', '\t', '\r', '\u{8}', '\u{c}', '\u{e9}',
            '\u{4e16}', '\u{1F600}', '{', ']', ':', ',', '0', 'u'];
        let mut s = String::new();
        for _ in 0..self.roll(6) {
            s.push(alphabet[self.roll(alphabet.len() as u64) as usize]);
        }
        s
    }

    fn number(&mut self) -> Number {
        let mut n = Number::from_i64(self.roll(2000) as i64 - 1000);
        if self.roll(2) == 0 {
            n.fraction = (0..self.roll(4) + 1).map(|_| self.roll(10) as u8).collect();
        }
        if self.roll(3) == 0 {
            n.exponent = Number::from_u64(self.roll(30)).integer;
            n.exponent_negative = self.roll(2) == 0;
        }
        n
    }

    fn value(&mut self, depth: u32) -> Value<'static> {
        match self.roll(if depth == 0 { 4 } else { 6 }) {
            0 => Value::Null,
            1 => Value::Boolean(self.roll(2) == 0),
            2 => Value::Number(self.number()),
            3 => Value::String(Cow::Owned(self.text())),
            4 => Value::Array((0..self.roll(4)).map(|_| self.value(depth - 1)).collect()),
            _ => {
                let mut members: Vec<(Cow<'static, str>, Value<'static>)> = Vec::new();
                for _ in 0..self.roll(4) {
                    let key = self.text();
                    if members.iter().all(|m| m.0 != key) {
                        members.push((Cow::Owned(key), self.value(depth - 1)));
                    }
                }
                Value::Object(members)
            },
        }
    }
}

fn same(a: &Value, b: &Value) -> bool {
    match (a, b) {
        (Value::Null, Value::Null) => true,
        (Value::Boolean(x), Value::Boolean(y)) => x == y,
        (Value::String(x), Value::String(y)) => x == y,
        (Value::Number(x), Value::Number(y)) => {
            x.negative == y.negative && x.integer == y.integer && x.fraction == y.fraction
                && x.exponent_negative == y.exponent_negative && x.exponent == y.exponent
        },
        (Value::Array(x), Value::Array(y)) => {
            x.len() == y.len() && x.iter().zip(y.iter()).all(|(p, q)| same(p, q))
        },
        (Value::Object(x), Value::Object(y)) => {
            x.len() == y.len()
                && x.iter().zip(y.iter()).all(|(p, q)| p.0 == q.0 && same(&p.1, &q.1))
        },
        _ => false,
    }
}

#[test]
fn generated_values_round_trip() {
    let mut dice = Dice(7);
    for _ in 0..300 {
        let value = dice.value(4);
        let written = to_string(&value).unwrap();
        let read = from_str(&written).unwrap();
        assert!(same(&value, &read), "{}", written);
        assert_eq!(to_json_string(&value), written);
        let thing = Thing::from_json(&written).unwrap();
        assert_eq!(to_json_string(&thing), written);
        assert_eq!(to_json_string(&thing.to_owned()), written);
    }
}
