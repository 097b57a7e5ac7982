//! A value model for JSON text, and a protocol by which any type can be
//! written to and read from a format without a tree in between.
//!
//! * [`from_str`] reads a text into a [`Value`]; [`to_string`] and
//!   [`encode_value`] write one.
//! * [`Serializer`] and [`Deserializer`] are what a format offers;
//!   [`Serialize`] and [`Deserialize`] are what a type does with it.
//!   [`JSONSerializer`] and [`JSONDeserializer`] are the text format.
//! * [`Thing`] is a tree that any format can be read into and that keeps
//!   the order of its keys.
//!
//! What a text denotes is stated in `grammar`, what a value is written as
//! in `render`. That the two fit together (what is written is read back,
//! keys keep their order, nesting is bounded) is proved in `roundtrip`,
//! `agreement`, `order` and `bounds`.

pub mod agreement;
pub mod bounds;
pub mod derive_impl;
pub mod deserialize_trait;
pub mod from_str;
pub mod grammar;
pub mod json_deserialize;
pub mod json_serialize;
pub mod number;
pub mod order;
pub mod render;
pub mod roundtrip;
pub mod serialize_trait;
pub mod slices;
pub mod text;
pub mod thing;
pub mod to_string;
pub mod value;

pub use derive_impl::{kserde_deserialize_impl, kserde_serialize_impl};
pub use deserialize_trait::{AnyValue, Deserialize, Deserializer};
pub use from_str::{from_str, Parser};
pub use json_deserialize::JSONDeserializer;
pub use json_serialize::{
    to_json_string, JSONArraySerializer, JSONObjectSerializer, JSONSerializer,
};
pub use number::Number;
pub use serialize_trait::{
    ArraySerializer, AsArraySerializer, AsObjectSerializer, ObjectSerializer, Serialize,
    Serializer,
};
pub use thing::{ObjectProperty, ObjectPropertyOwned, Thing, ThingOwned};
pub use to_string::{encode_value, to_string};
pub use value::Value;
