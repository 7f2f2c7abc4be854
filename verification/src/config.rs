//! Command-line configuration: the OSM file path and the two query points.

use vstd::prelude::*;

verus! {

/// The three positional arguments of a routing invocation, as plain strings.
#[derive(Debug, PartialEq, Eq)]
pub struct Config {
    pub filepath: String,
    pub start_point: String,
    pub end_point: String,
}

impl Config {
    /// Builds a `Config` from an argument vector whose first entry is the
    /// program name. Fails exactly when fewer than three arguments follow.
    pub fn new(args: &[String]) -> (r: Result<Config, &'static str>)
        ensures
            match r {
                Ok(c) => args@.len() >= 4 && c.filepath@ == args@[1]@ && c.start_point@
                    == args@[2]@ && c.end_point@ == args@[3]@,
                Err(m) => args@.len() < 4 && m@ == "not enough arguments"@,
            },
    {
        if args.len() < 4 {
            Err("not enough arguments")
        } else {
            let filepath = args[1].clone();
            let start_point = args[2].clone();
            let end_point = args[3].clone();
            Ok(Config { filepath, start_point, end_point })
        }
    }
}

} // verus!
