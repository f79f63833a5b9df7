//! A flat-file database: records are plain files with YAML frontmatter in a
//! directory tree, collections are directories with a `schema.md`, and views are
//! directories of symbolic links.
//!
//! The library parses, validates, queries, indexes and plans. Files and
//! directories are read and written by its caller, who hands in what was read and
//! carries out what was planned.

use vstd::prelude::*;

pub mod answer_laws;
pub mod arguments;
pub mod arguments_laws;
pub mod collection;
pub mod db;
pub mod double;
pub mod double_laws;
pub mod filter;
pub mod filter_laws;
pub mod frontmatter;
pub mod frontmatter_laws;
pub mod head;
pub mod index;
pub mod index_laws;
pub mod key;
pub mod message_laws;
pub mod path;
pub mod path_laws;
pub mod posting_laws;
pub mod query;
pub mod query_laws;
pub mod ranking;
pub mod record;
pub mod schema;
pub mod schema_laws;
pub mod shape_laws;
pub mod sidecar;
pub mod sort;
pub mod storage_laws;
pub mod text;
pub mod text_laws;
pub mod textmap;
pub mod validation;
pub mod validation_laws;
pub mod value;
pub mod value_laws;
pub mod view;
pub mod view_laws;
pub mod walk;
pub mod walk_laws;
pub mod yaml;

pub use collection::{Collection, CollectionError};
pub use db::{Db, DbError};
pub use frontmatter::{split, FrontmatterError, Split};
pub use index::{Index, IndexError};
pub use query::{FilterBuilder, OrderBuilder, Query};
pub use record::{Record, RecordError};
pub use schema::{FieldDef, FieldType, Schema, SchemaError};
pub use validation::{Severity, ValidationError};
pub use value::{IntoValue, Value};
pub use view::MaterializeError;

verus! {

/// The version of the library.
pub const VERSION: &'static str = "1.9.1";

} // verus!
