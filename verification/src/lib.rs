//! JAML: a small line-oriented, INI-like configuration format with typed
//! scalar values, arrays, and nested named sections addressed by
//! dotted paths. Parsing, serialization and the dotted-path store are
//! specified against a mathematical model of the value tree.
pub mod text;
pub mod value;
pub mod parser;
pub mod serializer;
pub mod store;
pub mod laws;
pub mod roundtrip;

pub use value::{JamlValue, JamlError};
pub use parser::parse;
pub use serializer::serialize;
pub use store::Jaml;
