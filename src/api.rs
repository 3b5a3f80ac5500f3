//! The request-facing layer: the `q` query language, request validation and response shapes.
pub mod error;
pub mod query_parser;
pub mod routes;
pub mod types;
