//! The viewer's tunables.
use vstd::prelude::*;

verus! {

/// How many commits to load and how much of a diff to show.
pub struct Config {
    pub max_commits: usize,
    pub diff_char_limit: usize,
}

impl Default for Config {
    /// Two hundred commits, diffs cut at eight thousand characters.
    fn default() -> (c: Self)
        ensures
            c.max_commits == 200,
            c.diff_char_limit == 8000,
    {
        Config { max_commits: 200, diff_char_limit: 8000 }
    }
}

} // verus!
