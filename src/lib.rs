//! Schema synthesis for derived type descriptions: classification of type
//! expressions, a definition table of referenced types, reference rewriting,
//! rendering of a JSON-like schema document with placeholder tokens, and the
//! substitution pass that resolves those tokens.
pub mod text;
pub mod words;
pub mod types;
pub mod table;
pub mod resolve;
pub mod schema;
pub mod render;
pub mod substitute;
pub mod parents;

pub use parents::extract_parent_generics;
pub use render::sanitize_name;
pub use resolve::{referenced_keys, replace_types};
pub use schema::{Schema, SchemaField, SchemaFieldRef, SchemaType, SchemaVariant};
pub use substitute::{is_self_reference, standalone_form, substitute, SchemaError};
pub use table::DefinitionTable;
pub use text::is_word_char;
pub use types::{classify, remove_create_type_path, TypeClass, TypeExpr};
pub use words::{extract_type_names, is_primitive_type};
