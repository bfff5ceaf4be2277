//! A hierarchical resource store: text resources addressed by paths such as
//! `/a/b/c`, with folders derived from the stored paths.
pub mod database;
pub mod handlers;
pub mod models;
pub mod order;
pub mod settings;
pub mod validation;
