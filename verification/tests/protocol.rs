use kserde::{
    to_json_string, AnyValue, Deserialize, Deserializer, JSONDeserializer, JSONSerializer, Number,
    Serialize, Serializer, Thing,
};
use std::borrow::Cow;

#[derive(Debug, PartialEq)]
struct Person {
    name: String,
    age: i64,
}

impl Serialize for Person {
    fn serialize<S: Serializer>(&self, serializer: &mut S) {
        serializer.open_object();
        serializer.key("name");
        self.name.serialize(serializer);
        serializer.end_property();
        serializer.key("age");
        self.age.serialize(serializer);
        serializer.end_property();
        serializer.close_object();
    }
}

impl<'a> Deserialize<'a> for Person {
    fn deserialize<D: Deserializer<'a>>(deserializer: &mut D) -> Option<Self> {
        if !deserializer.begin_object() {
            return None;
        }
        let mut name: Option<String> = None;
        let mut age: Option<i64> = None;
        while let Some(property) = deserializer.has_property() {
            match &*property {
                "name" => name = Some(String::deserialize(deserializer)?),
                "age" => age = Some(i64::deserialize(deserializer)?),
                _ => {
                    Thing::deserialize(deserializer)?;
                },
            }
        }
        Some(Person { name: name?, age: age? })
    }
}

fn read_person(source: &str) -> Option<Person> {
    let mut deserializer = JSONDeserializer::new(source);
    Person::deserialize(&mut deserializer)
}

#[test]
fn record_is_read_field_by_field() {
    let person = read_person("{\"name\": \"Odysseus\", \"age\": 43}").unwrap();
    assert_eq!(person, Person { name: String::from("Odysseus"), age: 43 });
}

#[test]
fn record_is_written_in_declaration_order() {
    let person = read_person("{\"age\": 43, \"name\": \"Odysseus\"}").unwrap();
    let text = to_json_string(&person);
    assert_eq!(text, "{\n    \"name\": \"Odysseus\",\n    \"age\": 43\n}");
    let thing = Thing::from_json(&text).unwrap();
    let members = thing.object().unwrap();
    assert_eq!(members.len(), 2);
    assert_eq!(members[0].0, "name");
    assert_eq!(members[1].0, "age");
    assert_eq!(read_person(&text), Some(person));
}

#[test]
fn record_skips_what_it_does_not_know() {
    let person = read_person("{\"extra\": [1, {\"x\": 2}], \"name\": \"N\", \"age\": 1, \"more\": null}");
    assert_eq!(person, Some(Person { name: String::from("N"), age: 1 }));
}

#[test]
fn record_fails_without_a_field() {
    assert_eq!(read_person("{\"name\": \"N\"}"), None);
    assert_eq!(read_person("{}"), None);
    assert_eq!(read_person("[]"), None);
    assert_eq!(read_person("{\"name\": 5, \"age\": 1}"), None);
}

#[test]
fn any_tells_what_comes_next() {
    let mut d = JSONDeserializer::new("{ [ \"s\" true false null -3.5 ");
    assert!(matches!(d.any(), Some(AnyValue::Object)));
    assert!(matches!(d.any(), Some(AnyValue::Array)));
    assert!(matches!(d.any(), Some(AnyValue::String(Cow::Borrowed("s")))));
    assert!(matches!(d.any(), Some(AnyValue::Bool(true))));
    assert!(matches!(d.any(), Some(AnyValue::Bool(false))));
    assert!(matches!(d.any(), Some(AnyValue::Null)));
    match d.any() {
        Some(AnyValue::Number(n)) => assert_eq!(n.to_text(), "-3.5"),
        _ => panic!("a number stood there"),
    }
    assert!(d.any().is_none());
}

#[test]
fn any_value_hands_out_its_content() {
    assert_eq!(AnyValue::String(Cow::Borrowed("x")).string(), Some(Cow::Borrowed("x")));
    assert_eq!(AnyValue::Bool(true).string(), None);
    assert_eq!(AnyValue::Bool(true).boolean(), Some(true));
    assert_eq!(AnyValue::Null.boolean(), None);
    assert_eq!(AnyValue::Number(Number::from_i64(3)).number().unwrap().as_i64(), Some(3));
    assert!(AnyValue::Array.number().is_none());
    assert_eq!(AnyValue::Object.object(), Some(()));
    assert_eq!(AnyValue::Array.object(), None);
}

#[test]
fn properties_are_handed_out_one_by_one() {
    let mut d = JSONDeserializer::new(" { \"a\" : 1 , \"b\":\"x\" } 7");
    assert!(d.begin_object());
    assert_eq!(d.has_property().as_deref(), Some("a"));
    assert_eq!(d.i64(), Some(1));
    assert_eq!(d.has_property().as_deref(), Some("b"));
    assert_eq!(d.string().as_deref(), Some("x"));
    assert_eq!(d.has_property(), None);
    assert_eq!(d.i64(), Some(7));
}

#[test]
fn a_failed_question_about_a_property_leaves_the_reader() {
    let mut d = JSONDeserializer::new("  12");
    assert_eq!(d.has_property(), None);
    assert_eq!(d.i64(), Some(12));
    let mut d = JSONDeserializer::new(" \"key\" 12");
    assert_eq!(d.has_property(), None);
    assert_eq!(d.string().as_deref(), Some("key"));
}

#[test]
fn elements_are_announced_one_by_one() {
    let mut d = JSONDeserializer::new("[1, 2] true");
    assert!(d.begin_array());
    assert!(d.has_array_value());
    assert_eq!(d.i64(), Some(1));
    assert!(d.has_array_value());
    assert_eq!(d.i64(), Some(2));
    assert!(!d.has_array_value());
    assert_eq!(d.bool(), Some(true));
    assert!(!d.has_array_value());
}

#[test]
fn openings_must_stand_there() {
    let mut d = JSONDeserializer::new("[");
    assert!(!d.begin_object());
    assert!(d.begin_array());
    let mut d = JSONDeserializer::new("{");
    assert!(!d.begin_array());
    assert!(d.begin_object());
}

#[test]
fn integers_must_be_written_as_integers() {
    let mut d = JSONDeserializer::new("9223372036854775807 -9223372036854775808");
    assert_eq!(d.i64(), Some(i64::MAX));
    assert_eq!(d.i64(), Some(i64::MIN));
    assert_eq!(JSONDeserializer::new("9223372036854775808").i64(), None);
    assert_eq!(JSONDeserializer::new("-9223372036854775809").i64(), None);
    assert_eq!(JSONDeserializer::new("1.5").i64(), None);
    assert_eq!(JSONDeserializer::new("1e2").i64(), None);
    assert_eq!(JSONDeserializer::new("\"1\"").i64(), None);
    assert_eq!(JSONDeserializer::new("-0").i64(), Some(0));
}

#[test]
fn numbers_are_read_as_written() {
    let n = JSONDeserializer::new(" 10.25e3").number().unwrap();
    assert_eq!(n.to_text(), "10.25e3");
    assert_eq!(n.as_i64(), None);
    assert!(Number::deserialize(&mut JSONDeserializer::new("x")).is_none());
    assert_eq!(bool::deserialize(&mut JSONDeserializer::new("false")), Some(false));
}

#[test]
fn number_from_integer_round_trips() {
    for n in [0i64, 1, -1, 9, 10, 99, 100, 12345, -9876543210, i64::MAX, i64::MIN] {
        let number = Number::from_i64(n);
        assert_eq!(number.as_i64(), Some(n));
        assert_eq!(number.to_text(), n.to_string());
        assert!(number.fraction.is_empty() && number.exponent.is_empty());
    }
}

#[test]
fn serializer_result_is_its_text() {
    let s = JSONSerializer::new();
    assert_eq!(s.done(), "");
}

/// A format of the caller's own: it writes the steps it is given as words.
struct Words {
    out: Vec<String>,
}

impl Serializer for Words {
    type Result = String;
    type State = ();

    fn new() -> Self {
        Words { out: Vec::new() }
    }

    fn string(&mut self, s: &str) {
        self.out.push(format!("text:{}", s));
    }

    fn bool(&mut self, b: bool) {
        self.out.push(format!("bool:{}", b));
    }

    fn i64(&mut self, i: i64) {
        self.out.push(format!("int:{}", i));
    }

    fn number(&mut self, n: &Number) {
        self.out.push(format!("number:{}", n.to_text()));
    }

    fn null(&mut self) {
        self.out.push(String::from("null"));
    }

    fn open_object(&mut self) {
        self.out.push(String::from("{"));
    }

    fn key(&mut self, name: &str) {
        self.out.push(format!("key:{}", name));
    }

    fn end_property(&mut self) {
        self.out.push(String::from(";"));
    }

    fn close_object(&mut self) {
        self.out.push(String::from("}"));
    }

    fn open_array(&mut self) {
        self.out.push(String::from("["));
    }

    fn end_element(&mut self) {
        self.out.push(String::from(","));
    }

    fn close_array(&mut self) {
        self.out.push(String::from("]"));
    }

    fn done(self) -> String {
        self.out.join(" ")
    }
}

#[test]
fn a_new_format_takes_the_old_types() {
    let person = Person { name: String::from("Odysseus"), age: 43 };
    let mut words = Words::new();
    person.serialize(&mut words);
    assert_eq!(words.done(), "{ key:name text:Odysseus ; key:age int:43 ; }");
    let thing = Thing::from_json("{\"b\": [1, null], \"a\": true}").unwrap();
    let mut words = Words::new();
    thing.serialize(&mut words);
    assert_eq!(words.done(), "{ key:b [ number:1 , null , ] ; key:a bool:true ; }");
}

fn lends(thing: &Thing) -> bool {
    match thing {
        Thing::String(text) => matches!(text, Cow::Borrowed(_)),
        Thing::Object(members) => {
            members.iter().all(|m| matches!(m.0, Cow::Borrowed(_)) && lends(&m.1.item))
        },
        Thing::Array(items) => items.iter().all(lends),
        _ => true,
    }
}

#[test]
fn a_tree_is_read_without_a_copy_where_no_backslash_stands() {
    let source = String::from("{\"a\": [\"b\", {\"c\": \"d \u{e9}\"}], \"e\": \"\"}");
    assert!(lends(&Thing::from_json(&source).unwrap()));
    let source = String::from("{\"a\\t\": 1}");
    assert!(!lends(&Thing::from_json(&source).unwrap()));
}
