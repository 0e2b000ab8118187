//! Where the few things that a user configures are kept.

use crate::path;
use crate::path::join_path;
use vstd::prelude::*;

verus! {

/// The environment variable that overrides the whole search: if it is set, that is where to
/// look and nowhere else.
pub const CONFIG_DIR_ENV: &'static str = "LH_CONFIG_DIR";

/// The folder that configuration lives in: the one that the environment names, or else the
/// platform's own. `None` when the platform will not say, which is not an error: everything
/// that is read from here has a default.
pub fn config_dir(named: Option<String>, platform: Option<String>) -> (r: Option<String>)
    ensures
        r == if named is Some {
            named
        } else {
            platform
        },
{
    match named {
        Some(dir) => Some(dir),
        None => platform,
    }
}

/// The full path of a configuration file, whether or not it exists.
pub fn config_path(dir: &Option<String>, file_name: &str) -> (r: Option<String>)
    ensures
        match *dir {
            Some(d) => r matches Some(p) && p@ == path::join(d@, file_name@),
            None => r is None,
        },
{
    match dir {
        Some(d) => Some(join_path(d, file_name)),
        None => None,
    }
}

} // verus!
