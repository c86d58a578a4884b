use vstd::prelude::*;

use crate::flags::{parse_args, Flag, ParseError, ParseErrorView};
use crate::text::views;

verus! {

/// What to search for, where, and how.
pub struct Config {
    /// The text that a line must contain.
    pub query: String,
    /// The file to search.
    pub filename: String,
    /// The options that the flags set.
    pub flag: Flag,
}

impl Config {
    /// Reads the arguments that follow the program's name: the flags, then
    /// the query and the file name, which are the first two positional
    /// arguments. Positional arguments after those two are ignored.
    pub fn new(args: &Vec<String>) -> (r: Result<Config, ParseError>)
        ensures
            match parse_args(views(args@), Flag::initial()) {
                Ok((f, ps)) => if ps.len() >= 2 {
                    &&& r is Ok
                    &&& r->Ok_0.query@ == ps[0]
                    &&& r->Ok_0.filename@ == ps[1]
                    &&& r->Ok_0.flag == f
                } else {
                    r is Err && r->Err_0@ == ParseErrorView::MissingPositional
                },
                Err(e) => r is Err && r->Err_0@ == e,
            },
    {
        match Flag::from_vec(args) {
            Ok((flag, others)) => {
                if others.len() < 2 {
                    return Err(ParseError::MissingPositional);
                }
                let query = others[0].clone();
                let filename = others[1].clone();
                Ok(Config { query, filename, flag })
            },
            Err(e) => Err(e),
        }
    }
}

} // verus!
