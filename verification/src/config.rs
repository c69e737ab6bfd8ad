//! Runtime settings. The surrounding program reads them from the
//! environment; this layer only fixes their shape and their defaults.

use vstd::prelude::*;
use vstd::string::StringExecFns;

verus! {

/// Settings the program runs under.
#[derive(Debug, Clone)]
pub struct Config {
    pub log_level: Option<String>,
    pub database_path: String,
    /// The length of autogenerated item ids.
    pub id_length: usize,
}

/// The id length used when the environment names none.
pub fn default_id_length() -> (r: usize)
    ensures
        r == 5,
{
    5
}

/// The database path used when the environment names none.
pub fn default_database_path() -> (r: String)
    ensures
        r@ == "/tmp/test.db"@,
{
    String::from_str("/tmp/test.db")
}

} // verus!
