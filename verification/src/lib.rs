//! Projection of columns, nested ones included, out of Arrow record batches.
//!
//! A `RecordBatchProjector` is built from a schema and a list of field ids or
//! field names. It remembers, for each requested field, the positions that lead
//! to it through nested structs, and picks the matching columns out of batches.

pub mod calls;
pub mod chains;
pub mod columns;
pub mod contents;
pub mod error;
pub mod fit;
pub mod found;
pub mod lookup;
pub mod outside;
pub mod projector;
pub mod reorder;
pub mod schema;
pub mod shapes;
pub mod text;
pub mod written;

pub use error::{Error, ErrorKind};
pub use outside::{Batch, Column};
pub use projector::RecordBatchProjector;
pub use schema::{parquet_field_id, FieldNode, SchemaTree};
