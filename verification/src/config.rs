//! Where the registry file and the data models live.

use vstd::prelude::*;

verus! {

/// The two locations an invocation works with: the registry file, and the
/// place the data models are kept (a filesystem path held as a string).
pub struct Config {
    pub config_file: String,
    pub data_models: String,
}

impl Config {
    /// A configuration holding exactly the two locations it was given.
    pub fn new(config_file: &str, data_models: &str) -> (c: Config)
        ensures
            c.config_file@ == config_file@,
            c.data_models@ == data_models@,
    {
        Config { config_file: config_file.to_owned(), data_models: data_models.to_owned() }
    }
}

} // verus!
