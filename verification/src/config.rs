//! The search configuration: query, file name, and case-sensitivity choice.

use vstd::prelude::*;

verus! {

/// What one invocation of the tool searches for and where: built once from
/// the argument list and never changed afterwards.
#[derive(Debug)]
pub struct Config {
    /// The substring being searched for.
    pub query_str: String,
    /// The name of the file whose lines are searched.
    pub filename: String,
    /// True for exact matching; false to lower both query and line first.
    pub case_sensitive: bool,
}

impl Config {
    /// Builds a `Config` from the argument list. The first argument is the
    /// program name and is discarded; the second is the query and the third
    /// the file name. A missing argument yields an error naming it.
    /// Matching is case-sensitive unless the caller reports that the
    /// case-insensitivity switch is set in the environment.
    pub fn new(args: Vec<String>, case_insensitive_set: bool) -> (r: Result<Config, String>)
        ensures
            r is Ok <==> args@.len() >= 3,
            r is Ok ==> r->Ok_0.query_str@ == args@[1]@ && r->Ok_0.filename@ == args@[2]@
                && r->Ok_0.case_sensitive == !case_insensitive_set,
            args@.len() < 2 ==> r->Err_0@ == "Expected query_str got None"@,
            args@.len() == 2 ==> r->Err_0@ == "Expected filename got None"@,
    {
        if args.len() < 2 {
            return Err(String::from_str("Expected query_str got None"));
        }
        if args.len() < 3 {
            return Err(String::from_str("Expected filename got None"));
        }
        let query_str = args[1].clone();
        let filename = args[2].clone();
        Ok(Config { query_str, filename, case_sensitive: !case_insensitive_set })
    }
}

} // verus!
