//! Exchange of tables between an HTML clipboard payload and a model of rows
//! and cells.
pub mod header;
pub mod node;
pub mod extract;
pub mod builder;
pub mod html;
pub mod error;
pub mod clip;
pub mod builtins;
