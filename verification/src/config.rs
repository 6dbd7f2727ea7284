//! Invocation settings: a file path and the list of column names to keep,
//! collected from positional arguments. The column list is one argument,
//! split on commas by the same rule as the header line.

use crate::split::split_on;
use vstd::prelude::*;

verus! {

/// The two inputs of a run: where to read the table from, and which
/// columns to keep.
#[derive(Debug, PartialEq, Eq)]
pub struct Config {
    pub csv_file: String,
    pub columns: Vec<String>,
}

impl Config {
    /// Builds a configuration from positional arguments: the first argument
    /// is the caller's own name, the second the file path, the third the
    /// comma-separated column list. Fails exactly when fewer than three
    /// arguments are given.
    pub fn new(args: &[String]) -> (r: Result<Config, &'static str>)
        ensures
            r is Ok <==> args@.len() >= 3,
            r matches Ok(c) ==> c.csv_file@ == args@[1]@ && c.columns.deep_view() == split_on(
                args@[2]@,
                ',',
            ),
            r matches Err(m) ==> m@ == "Wrong number of argument given, 2 expected"@,
    {
        if args.len() < 3 {
            return Err("Wrong number of argument given, 2 expected");
        }
        let csv_file = args[1].clone();
        let columns = crate::split::split_comma(args[2].as_str());
        Ok(Config { csv_file, columns })
    }
}

} // verus!
