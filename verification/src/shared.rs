//! The errors of reading and writing the YAML settings files.

use vstd::prelude::*;

verus! {

/// A YAML file could not be loaded.
pub struct LoadYamlError {
    pub path: String,
}

/// A YAML file could not be written.
pub struct DumpYamlError {
    pub path: String,
}

impl LoadYamlError {
    /// The error for the file at `path`.
    pub fn new(path: &str) -> (r: LoadYamlError)
        ensures
            r.path@ == path@,
    {
        LoadYamlError { path: String::from_str(path) }
    }
}

impl DumpYamlError {
    /// The error for the file at `path`.
    pub fn new(path: &str) -> (r: DumpYamlError)
        ensures
            r.path@ == path@,
    {
        DumpYamlError { path: String::from_str(path) }
    }
}

} // verus!
