//! One run: the lines to print for a configuration and the contents of its
//! file. Reading the file and printing the lines are left to the caller.

use vstd::prelude::*;
use crate::config::{Config, ConfigModel};
use crate::engine::{
    contents_of, matching_lines, matching_lines_folded, search, search_case_insensitive,
};

verus! {

/// The lines that a run prints, in order: the lines of `text` that contain
/// the configured query, with or without regard to letter case as the
/// configuration says.
pub open spec fn output_lines(config: ConfigModel, text: Seq<char>) -> Seq<Seq<char>> {
    if config.ignore_case {
        matching_lines_folded(config.query, text)
    } else {
        matching_lines(config.query, text)
    }
}

/// Searches `contents`, the text of the configured file, as `config` says,
/// and returns the lines to print, one per output line and in this order.
pub fn run<'a>(config: &Config, contents: &'a str) -> (lines: Vec<&'a str>)
    ensures
        contents_of(lines@) == output_lines(config@, contents@),
{
    if config.ignore_case {
        search_case_insensitive(config.query.as_str(), contents)
    } else {
        search(config.query.as_str(), contents)
    }
}

} // verus!
