//! A self-contained JSON parser and serializer.
//!
//! Text is parsed character by character by a recursive-descent grammar whose
//! productions mirror strict JSON: every production is specified against a
//! mathematical description of the grammar, and the serializer is specified
//! against a mathematical rendering of the value tree.  Round-trip lemmas
//! relate the two.
pub mod encoding;
pub mod grammar;
pub mod json;
pub mod json_parser;
pub mod parser;
pub mod roundtrip;
pub mod traits;

pub use crate::json::JsonObject;
pub use crate::json::JsonValue;
pub use crate::json::NumberValue;
pub use crate::json_parser::parse_json;
pub use crate::json_parser::parse_json_with_options;
pub use crate::parser::ParserContext;
pub use crate::parser::ParserOptions;
pub use crate::parser::SimpleError;
pub use crate::parser::SimplePosition;
pub use crate::traits::FromJson;
pub use crate::traits::IntoJson;
pub use crate::traits::Serialize;
