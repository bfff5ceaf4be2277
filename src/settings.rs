//! Where the store lives, where the server listens, and the limits that
//! requests are held to.
use crate::validation::Limits;
use vstd::prelude::*;

verus! {

/// The server's settings.
#[derive(Debug, Clone)]
pub struct Settings {
    pub db_file_path: String,
    pub db_schema_path: String,
    pub host: String,
    pub port: u16,
    pub limits: Limits,
}

} // verus!
