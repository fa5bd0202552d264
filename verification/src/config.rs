use vstd::prelude::*;

use crate::passwords::Password;

verus! {

/// The persisted configuration: the ordered password list.  Loading it from
/// and storing it to disk is the caller's business; the library only owns
/// the value.
#[derive(Debug)]
pub struct Config {
    pub passwords: Vec<Password>,
}

impl Config {
    /// The configuration used when none is stored yet: no passwords.
    pub fn default_config() -> (r: Config)
        ensures
            r.passwords@.len() == 0,
    {
        Config { passwords: Vec::new() }
    }
}

} // verus!
