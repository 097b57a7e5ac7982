use kserde::derive_impl::{kserde_deserialize_impl, kserde_serialize_impl, Field, Struct};

fn field(name: &str, ty: &str) -> Field {
    Field { name: name.into(), ty: ty.into() }
}

#[test]
fn kersde_impl() {
    let value = Struct {
        name: "Thing".into(),
        generic_lifetimes: Vec::new(),
        generic_types: Vec::new(),
        fields: vec![field("x", "f32")],
    };

    println!("{}", kserde_deserialize_impl(&value));
}

#[test]
fn serialize_impl_writes_each_field_in_order() {
    let value = Struct {
        name: "Person".into(),
        generic_lifetimes: Vec::new(),
        generic_types: Vec::new(),
        fields: vec![field("name", "String"), field("age", "i64")],
    };
    let expected = "impl<> Serialize for Person<> {
    fn serialize<E: Serializer>(&self, serializer: &mut E) {
        serializer.open_object();
        serializer.key(\"name\");
        self.name.serialize(serializer);
        serializer.end_property();
        serializer.key(\"age\");
        self.age.serialize(serializer);
        serializer.end_property();
        serializer.close_object();
    }
}";
    assert_eq!(kserde_serialize_impl(&value), expected);
}

#[test]
fn deserialize_impl_reads_each_field_by_name() {
    let value = Struct {
        name: "Person".into(),
        generic_lifetimes: Vec::new(),
        generic_types: Vec::new(),
        fields: vec![field("name", "String"), field("nick", "Option<String>")],
    };
    let expected = "impl<'kserde, > Deserialize<'kserde> for Person<> {
    fn deserialize<D: Deserializer<'kserde>>(deserializer: &mut D) -> Option<Self> {
        deserializer.begin_object().then(|| {})?;
        let mut name: Option<String> = None;
        let mut nick: Option<String> = None;
        while let Some(p) = deserializer.has_property() {
            match &*p {
                \"name\" => name = Some(<String>::deserialize(deserializer)?),
                \"nick\" => nick = Some(<String>::deserialize(deserializer)?),
                _ => {
                    Thing::deserialize(deserializer)?;
                }
            }
        }
        Some(Self {
            name: name?,
            nick,
        })
    }
}";
    assert_eq!(kserde_deserialize_impl(&value), expected);
}

#[test]
fn generics_stand_in_both_places() {
    let value = Struct {
        name: "Pair".into(),
        generic_lifetimes: vec!["a".into(), "b".into()],
        generic_types: vec!["T".into()],
        fields: Vec::new(),
    };
    let text = kserde_serialize_impl(&value);
    assert!(text.starts_with("impl<'a,'b,T,> Serialize for Pair<'a,'b,T,> {\n"));
    assert!(text.ends_with("        serializer.open_object();\n        serializer.close_object();\n    }\n}"));
    let text = kserde_deserialize_impl(&value);
    assert!(text.starts_with("impl<'kserde, 'a,'b,T,> Deserialize<'kserde> for Pair<'a,'b,T,> {\n"));
}

#[test]
fn a_type_is_an_option_by_its_first_letters() {
    let value = Struct {
        name: "S".into(),
        generic_lifetimes: Vec::new(),
        generic_types: Vec::new(),
        fields: vec![field("a", "Option<Vec<i64>>"), field("b", "Option"), field("c", "Options")],
    };
    let text = kserde_deserialize_impl(&value);
    assert!(text.contains("        let mut a: Option<Vec<i64>> = None;\n"));
    assert!(text.contains("\"a\" => a = Some(<Vec<i64>>::deserialize(deserializer)?),\n"));
    assert!(text.contains("            a,\n"));
    assert!(text.contains("        let mut b: Option<Option> = None;\n"));
    assert!(text.contains("\"b\" => b = Some(<Option>::deserialize(deserializer)?),\n"));
    assert!(text.contains("            b: b?,\n"));
    assert!(text.contains("        let mut c: Option<Options> = None;\n"));
}
