//! The store configuration: where the two artifacts live.

use vstd::prelude::*;

verus! {

/// The directory that holds the index map and the content blob.
pub struct Config {
    path: String,
}

impl Config {
    pub closed spec fn path_spec(&self) -> Seq<char> {
        self.path@
    }

    pub fn new(path: String) -> (r: Self)
        ensures
            r.path_spec() == path@,
    {
        Config { path }
    }

    pub fn path(&self) -> (r: &str)
        ensures
            r@ == self.path_spec(),
    {
        self.path.as_str()
    }
}

} // verus!
