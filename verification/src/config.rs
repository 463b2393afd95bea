//! How the server is asked to run, and where it keeps its state.
use vstd::prelude::*;
use vstd::string::StringExecFns;

verus! {

/// The data directory used when none is given.
pub open spec fn default_data_dir() -> Seq<char> {
    "hadar-data"@
}

/// The usage text.
pub open spec fn usage_text() -> Seq<char> {
    "usage: hadar [DATA_DIR]    (default: "@ + default_data_dir() + ")"@
}

/// Where the server keeps its state and how it was asked to run.
#[derive(Debug, Clone, PartialEq, Eq)]
pub struct Config {
    /// Directory holding the store and the write-ahead log.
    pub data_dir: String,
}

/// Locations within the data directory.
#[derive(Debug, Clone, PartialEq, Eq)]
pub struct Paths {
    /// The storage backend's database file.
    pub store: String,
    /// The directory holding write-ahead log segments.
    pub log: String,
}

impl Config {
    /// Returns the usage text, naming the default data directory.
    pub fn usage() -> (u: String)
        ensures
            u@ == usage_text(),
    {
        let mut out = String::from_str("usage: hadar [DATA_DIR]    (default: ");
        out.append("hadar-data");
        out.append(")");
        out
    }

    /// Reads configuration from the command-line arguments that follow the
    /// program's name.
    ///
    /// No argument selects the default data directory, and one names it.
    /// Asking for help with `-h` or `--help`, or giving more than one
    /// argument, is refused with the usage text.
    pub fn from_args(args: &[String]) -> (r: Result<Config, String>)
        ensures
            args@.len() == 0 ==> (r matches Ok(c) && c.data_dir@ == default_data_dir()),
            args@.len() > 0 && (args@[0]@ == "-h"@ || args@[0]@ == "--help"@) ==> (r matches Err(u) && u@ == usage_text()),
            args@.len() > 0 && args@[0]@ != "-h"@ && args@[0]@ != "--help"@ && args@.len() > 1 ==> (r matches Err(u) && u@ == usage_text()),
            args@.len() == 1 && args@[0]@ != "-h"@ && args@[0]@ != "--help"@ ==> (r matches Ok(c) && c.data_dir@ == args@[0]@),
    {
        if args.len() == 0 {
            return Ok(Config { data_dir: String::from_str("hadar-data") });
        }
        let first = &args[0];
        let short = String::from_str("-h");
        let long = String::from_str("--help");
        if *first == short || *first == long {
            return Err(Self::usage());
        }
        if args.len() > 1 {
            return Err(Self::usage());
        }
        Ok(Config { data_dir: first.clone() })
    }
}

} // verus!
