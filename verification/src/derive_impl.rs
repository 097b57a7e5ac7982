//! Writing out, as source text, the two impls that let a record take part
//! in the protocol: as an object with one property for each field, in the
//! order in which the fields are declared.

use vstd::prelude::*;
use vstd::string::StringExecFns;
use crate::text::{chars_of, push_char};

verus! {

/// A field of a record: its name and its type, as they are written.
#[derive(Debug, Clone)]
pub struct Field {
    pub name: String,
    pub ty: String,
}

/// A record with named fields, as far as the impls depend on it.
#[derive(Debug, Clone)]
pub struct Struct {
    pub name: String,
    pub generic_lifetimes: Vec<String>,
    pub generic_types: Vec<String>,
    pub fields: Vec<Field>,
}

/// The mathematical content of a [`Field`].
pub struct FieldModel {
    pub name: Seq<char>,
    pub ty: Seq<char>,
}

/// The mathematical content of a [`Struct`].
pub struct StructModel {
    pub name: Seq<char>,
    pub generic_lifetimes: Seq<Seq<char>>,
    pub generic_types: Seq<Seq<char>>,
    pub fields: Seq<FieldModel>,
}

impl View for Field {
    type V = FieldModel;

    open spec fn view(&self) -> FieldModel {
        FieldModel { name: self.name@, ty: self.ty@ }
    }
}

impl View for Struct {
    type V = StructModel;

    open spec fn view(&self) -> StructModel {
        StructModel {
            name: self.name@,
            generic_lifetimes: Seq::new(
                self.generic_lifetimes@.len(),
                |i: int| self.generic_lifetimes@[i]@,
            ),
            generic_types: Seq::new(self.generic_types@.len(), |i: int| self.generic_types@[i]@),
            fields: Seq::new(self.fields@.len(), |i: int| self.fields@[i]@),
        }
    }
}

/// The first `upto` lifetimes, each behind a tick and before a comma.
pub open spec fn lifetimes_text(lifetimes: Seq<Seq<char>>, upto: nat) -> Seq<char>
    decreases upto,
{
    if upto == 0 || upto > lifetimes.len() {
        Seq::empty()
    } else {
        lifetimes_text(lifetimes, (upto - 1) as nat) + seq!['\''] + lifetimes[upto - 1] + seq![',']
    }
}

/// The first `upto` type parameters, each before a comma.
pub open spec fn types_text(types: Seq<Seq<char>>, upto: nat) -> Seq<char>
    decreases upto,
{
    if upto == 0 || upto > types.len() {
        Seq::empty()
    } else {
        types_text(types, (upto - 1) as nat) + types[upto - 1] + seq![',']
    }
}

/// The parameters of a record as they stand between angle brackets: the
/// lifetimes, then the types.
pub open spec fn generics_text(record: StructModel) -> Seq<char> {
    lifetimes_text(record.generic_lifetimes, record.generic_lifetimes.len()) + types_text(
        record.generic_types,
        record.generic_types.len(),
    )
}

/// Whether a type is written as an option of another: `Option`, one more
/// character, the other type, and one last character.
pub open spec fn is_optional(ty: Seq<char>) -> bool {
    &&& ty.len() >= 8
    &&& ty[0] == 'O'
    &&& ty[1] == 'p'
    &&& ty[2] == 't'
    &&& ty[3] == 'i'
    &&& ty[4] == 'o'
    &&& ty[5] == 'n'
}

/// The type within an option.
pub open spec fn optional_inner(ty: Seq<char>) -> Seq<char> {
    ty.subrange(7, ty.len() - 1)
}

/// The statements that write one field as a property.
pub open spec fn property_text(field: FieldModel) -> Seq<char> {
    "        serializer.key(\""@ + field.name + "\");\n        self."@ + field.name
        + ".serialize(serializer);\n        serializer.end_property();\n"@
}

/// The statements that write the first `upto` fields.
pub open spec fn properties_text(fields: Seq<FieldModel>, upto: nat) -> Seq<char>
    decreases upto,
{
    if upto == 0 || upto > fields.len() {
        Seq::empty()
    } else {
        properties_text(fields, (upto - 1) as nat) + property_text(fields[upto - 1])
    }
}

/// The impl that writes a record: an object is opened, each field is
/// written as a property under its own name, in the order of declaration,
/// and the object is closed.
pub open spec fn serialize_impl_text(record: StructModel) -> Seq<char> {
    "impl<"@ + generics_text(record) + "> Serialize for "@ + record.name + "<"@ + generics_text(
        record,
    )
        + "> {\n    fn serialize<E: Serializer>(&self, serializer: &mut E) {\n        serializer.open_object();\n"@
        + properties_text(record.fields, record.fields.len())
        + "        serializer.close_object();\n    }\n}"@
}

/// The declaration of the place that holds a field while the record is read.
pub open spec fn declaration_text(field: FieldModel) -> Seq<char> {
    if is_optional(field.ty) {
        "        let mut "@ + field.name + ": "@ + field.ty + " = None;\n"@
    } else {
        "        let mut "@ + field.name + ": Option<"@ + field.ty + "> = None;\n"@
    }
}

/// The arm that reads a field when its name comes.
pub open spec fn arm_text(field: FieldModel) -> Seq<char> {
    "                \""@ + field.name + "\" => "@ + field.name + " = Some(<"@ + (if is_optional(
        field.ty,
    ) {
        optional_inner(field.ty)
    } else {
        field.ty
    }) + ">::deserialize(deserializer)?),\n"@
}

/// The line that hands a field to the record. A field that is no option
/// must have been read.
pub open spec fn assignment_text(field: FieldModel) -> Seq<char> {
    if is_optional(field.ty) {
        "            "@ + field.name + ",\n"@
    } else {
        "            "@ + field.name + ": "@ + field.name + "?,\n"@
    }
}

/// The declarations of the first `upto` fields.
pub open spec fn declarations_text(fields: Seq<FieldModel>, upto: nat) -> Seq<char>
    decreases upto,
{
    if upto == 0 || upto > fields.len() {
        Seq::empty()
    } else {
        declarations_text(fields, (upto - 1) as nat) + declaration_text(fields[upto - 1])
    }
}

/// The arms of the first `upto` fields.
pub open spec fn arms_text(fields: Seq<FieldModel>, upto: nat) -> Seq<char>
    decreases upto,
{
    if upto == 0 || upto > fields.len() {
        Seq::empty()
    } else {
        arms_text(fields, (upto - 1) as nat) + arm_text(fields[upto - 1])
    }
}

/// The assignments of the first `upto` fields.
pub open spec fn assignments_text(fields: Seq<FieldModel>, upto: nat) -> Seq<char>
    decreases upto,
{
    if upto == 0 || upto > fields.len() {
        Seq::empty()
    } else {
        assignments_text(fields, (upto - 1) as nat) + assignment_text(fields[upto - 1])
    }
}

/// The impl that reads a record: an object must open; each property whose
/// name is that of a field is read as the field's type, any other is read
/// and dropped; at the end every field that is no option must have been
/// read.
pub open spec fn deserialize_impl_text(record: StructModel) -> Seq<char> {
    "impl<'kserde, "@ + generics_text(record) + "> Deserialize<'kserde> for "@ + record.name
        + "<"@ + generics_text(record)
        + "> {\n    fn deserialize<D: Deserializer<'kserde>>(deserializer: &mut D) -> Option<Self> {\n        deserializer.begin_object().then(|| {})?;\n"@
        + declarations_text(record.fields, record.fields.len())
        + "        while let Some(p) = deserializer.has_property() {\n            match &*p {\n"@
        + arms_text(record.fields, record.fields.len())
        + "                _ => {\n                    Thing::deserialize(deserializer)?;\n                }\n            }\n        }\n        Some(Self {\n"@
        + assignments_text(record.fields, record.fields.len()) + "        })\n    }\n}"@
}

/// Appends the parameters of `record` to `s`.
fn push_generics(s: &mut String, record: &Struct)
    ensures
        final(s)@ == old(s)@ + generics_text(record@),
{
    let ghost base = s@;
    let mut i: usize = 0;
    while i < record.generic_lifetimes.len()
        invariant
            i <= record.generic_lifetimes.len(),
            s@ == base + lifetimes_text(record@.generic_lifetimes, i as nat),
        decreases record.generic_lifetimes.len() - i,
    {
        let ghost before = s@;
        push_char(s, '\'');
        s.append(record.generic_lifetimes[i].as_str());
        push_char(s, ',');
        assert(s@ =~= before + seq!['\''] + record@.generic_lifetimes[i as int] + seq![',']);
        assert(s@ =~= base + lifetimes_text(record@.generic_lifetimes, (i + 1) as nat));
        i += 1;
    }
    let ghost middle = s@;
    let mut i: usize = 0;
    while i < record.generic_types.len()
        invariant
            i <= record.generic_types.len(),
            s@ == middle + types_text(record@.generic_types, i as nat),
        decreases record.generic_types.len() - i,
    {
        let ghost before = s@;
        s.append(record.generic_types[i].as_str());
        push_char(s, ',');
        assert(s@ =~= before + record@.generic_types[i as int] + seq![',']);
        assert(s@ =~= middle + types_text(record@.generic_types, (i + 1) as nat));
        i += 1;
    }
    assert(s@ =~= old(s)@ + generics_text(record@));
}

/// Whether a type is written as an option, and the type within it if so.
fn optional_type(ty: &str) -> (r: Option<String>)
    ensures
        r is Some <==> is_optional(ty@),
        r matches Some(inner) ==> inner@ == optional_inner(ty@),
{
    let chars = chars_of(ty);
    if chars.len() < 8 || chars[0] != 'O' || chars[1] != 'p' || chars[2] != 't' || chars[3] != 'i'
        || chars[4] != 'o' || chars[5] != 'n' {
        return None;
    }
    let mut inner = String::new();
    let mut i: usize = 7;
    while i < chars.len() - 1
        invariant
            7 <= i <= chars.len() - 1,
            inner@ == chars@.subrange(7, i as int),
        decreases chars.len() - i,
    {
        push_char(&mut inner, chars[i]);
        assert(chars@.subrange(7, i + 1) =~= chars@.subrange(7, i as int).push(chars@[i as int]));
        i += 1;
    }
    Some(inner)
}

/// The source text of the impl that writes `value`.
pub fn kserde_serialize_impl(value: &Struct) -> (r: String)
    ensures
        r@ == serialize_impl_text(value@),
{
    let mut s = String::new();
    s.append("impl<");
    push_generics(&mut s, value);
    s.append("> Serialize for ");
    s.append(value.name.as_str());
    s.append("<");
    push_generics(&mut s, value);
    s.append(
        "> {\n    fn serialize<E: Serializer>(&self, serializer: &mut E) {\n        serializer.open_object();\n",
    );
    let ghost base = s@;
    let mut i: usize = 0;
    while i < value.fields.len()
        invariant
            i <= value.fields.len(),
            s@ == base + properties_text(value@.fields, i as nat),
        decreases value.fields.len() - i,
    {
        let ghost before = s@;
        let name = value.fields[i].name.as_str();
        s.append("        serializer.key(\"");
        s.append(name);
        s.append("\");\n        self.");
        s.append(name);
        s.append(".serialize(serializer);\n        serializer.end_property();\n");
        assert(s@ =~= before + property_text(value@.fields[i as int]));
        assert(s@ =~= base + properties_text(value@.fields, (i + 1) as nat));
        i += 1;
    }
    s.append("        serializer.close_object();\n    }\n}");
    assert(s@ =~= serialize_impl_text(value@));
    s
}

/// The source text of the impl that reads `value`.
pub fn kserde_deserialize_impl(value: &Struct) -> (r: String)
    ensures
        r@ == deserialize_impl_text(value@),
{
    let mut declarations = String::new();
    let mut arms = String::new();
    let mut assignments = String::new();
    let mut i: usize = 0;
    while i < value.fields.len()
        invariant
            i <= value.fields.len(),
            declarations@ == declarations_text(value@.fields, i as nat),
            arms@ == arms_text(value@.fields, i as nat),
            assignments@ == assignments_text(value@.fields, i as nat),
        decreases value.fields.len() - i,
    {
        let ghost field = value@.fields[i as int];
        let ghost declared = declarations@;
        let ghost matched = arms@;
        let ghost assigned = assignments@;
        let name = value.fields[i].name.as_str();
        let ty = value.fields[i].ty.as_str();
        arms.append("                \"");
        arms.append(name);
        arms.append("\" => ");
        arms.append(name);
        arms.append(" = Some(<");
        match optional_type(ty) {
            Some(inner) => {
                declarations.append("        let mut ");
                declarations.append(name);
                declarations.append(": ");
                declarations.append(ty);
                declarations.append(" = None;\n");
                assignments.append("            ");
                assignments.append(name);
                assignments.append(",\n");
                arms.append(inner.as_str());
            },
            None => {
                declarations.append("        let mut ");
                declarations.append(name);
                declarations.append(": Option<");
                declarations.append(ty);
                declarations.append("> = None;\n");
                assignments.append("            ");
                assignments.append(name);
                assignments.append(": ");
                assignments.append(name);
                assignments.append("?,\n");
                arms.append(ty);
            },
        }
        arms.append(">::deserialize(deserializer)?),\n");
        assert(declarations@ =~= declared + declaration_text(field));
        assert(arms@ =~= matched + arm_text(field));
        assert(assignments@ =~= assigned + assignment_text(field));
        i += 1;
    }
    let mut s = String::new();
    s.append("impl<'kserde, ");
    push_generics(&mut s, value);
    s.append("> Deserialize<'kserde> for ");
    s.append(value.name.as_str());
    s.append("<");
    push_generics(&mut s, value);
    s.append(
        "> {\n    fn deserialize<D: Deserializer<'kserde>>(deserializer: &mut D) -> Option<Self> {\n        deserializer.begin_object().then(|| {})?;\n",
    );
    s.append(declarations.as_str());
    s.append("        while let Some(p) = deserializer.has_property() {\n            match &*p {\n");
    s.append(arms.as_str());
    s.append(
        "                _ => {\n                    Thing::deserialize(deserializer)?;\n                }\n            }\n        }\n        Some(Self {\n",
    );
    s.append(assignments.as_str());
    s.append("        })\n    }\n}");
    assert(s@ =~= deserialize_impl_text(value@));
    s
}

} // verus!
