//! Settings of the program.

use std::path::PathBuf;
use vstd::prelude::*;
use vstd::string::StringExecFns;

verus! {

/// Where the program keeps its data and its installations.
#[derive(Debug)]
pub struct Config {
    /// Name of the catalog.
    pub data: String,
    /// Directory below which releases are installed.
    pub installation_dir: PathBuf,
}

/// `PathBuf::from` of std makes a path out of a text. Nothing is stated of
/// the path.
#[verifier::external_body]
fn path_from(text: &str) -> (r: PathBuf) {
    PathBuf::from(text)
}

impl Default for Config {
    /// The catalog is `data.db`; releases go below
    /// `/usr/local/share/go_vers`.
    fn default() -> (r: Config)
        ensures
            r.data@ == "data.db"@,
    {
        Config {
            data: String::from_str("data.db"),
            installation_dir: path_from("/usr/local/share/go_vers"),
        }
    }
}

} // verus!
