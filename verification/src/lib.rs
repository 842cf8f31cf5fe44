//! Consensus primitives for a client-side-validated smart-contract protocol:
//! the schema data model with its content-addressed identifier, the status
//! accumulator that aggregates validation findings into a final verdict, and
//! the schema-driven validation engine that walks a contract's operation
//! graph and reports every defect it finds.

pub mod types;
pub mod status;
pub mod schema;
pub mod encoding;
pub mod schema_id;
pub mod validation;
pub mod vm;
