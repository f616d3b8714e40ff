//! The run configuration: the two positional arguments, with the checks
//! that need no file system: enough arguments, and a `.json` input path.
//! Whether the paths exist and are readable or writable is checked where
//! the files are opened.

use vstd::prelude::*;
use crate::text::{spec_ends_with, str_ends_with};

verus! {

/// The input path and the output directory of one run.
pub struct Config {
    pub input: String,
    pub output: String,
}

impl Config {
    /// Reads the configuration from the argument list: the executable name,
    /// the input path (which must end in `.json`) and the output path.
    pub fn new(args: &[String]) -> (r: Result<Config, &'static str>)
        ensures
            args@.len() < 3 ==> (r matches Err(m) && m@ == "Missing arguments"@),
            args@.len() >= 3 && !spec_ends_with(args@[1]@, ".json"@) ==> (r matches Err(m) && m@
                == "Input file must be '.json'"@),
            args@.len() >= 3 && spec_ends_with(args@[1]@, ".json"@) ==> (r matches Ok(c) && (
            c.input@ == args@[1]@ && c.output@ == args@[2]@)),
    {
        if args.len() < 3 {
            return Result::Err("Missing arguments");
        }
        let input = args[1].clone();
        if !str_ends_with(input.as_str(), ".json") {
            return Result::Err("Input file must be '.json'");
        }
        let output = args[2].clone();
        Result::Ok(Config { input, output })
    }
}

} // verus!
