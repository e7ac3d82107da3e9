//! The on-disk tool configuration: a small versioned document that a driver
//! stores under `.carb/config.yml` in a project directory.  Reading and
//! writing the file is the driver's job; this module holds the document
//! model and the path rule.
use vstd::prelude::*;

verus! {

/// The configuration schema version.
#[derive(Debug, PartialEq, Eq, Structural, Clone, Copy)]
pub enum Version {
    Prerelease,
}

/// The tool configuration document.
#[derive(Debug, PartialEq, Eq, Structural, Clone, Copy)]
pub struct Config {
    pub version: Version,
}

impl Config {
    /// Where the configuration lives, relative to a project directory.
    pub fn get_config_path(directory: &str) -> (r: String)
        ensures
            r@ == directory@ + "/.carb/config.yml"@,
    {
        let base: String = directory.to_owned();
        let r = base.concat("/.carb/config.yml");
        r
    }
}

impl Default for Config {
    fn default() -> (r: Self)
        ensures
            r == (Config { version: Version::Prerelease }),
    {
        Config { version: Version::Prerelease }
    }
}

} // verus!
