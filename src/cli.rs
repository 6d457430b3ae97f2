//! The command line: one `open` command with an optional location.

use vstd::prelude::*;

verus! {

/// Options of `open`: the page to show.
#[derive(Debug, PartialEq, Eq)]
pub struct Opts {
    pub url: Option<String>,
}

/// A command-line command.
#[derive(Debug, PartialEq, Eq)]
pub enum Command {
    Open(Opts),
}

} // verus!
