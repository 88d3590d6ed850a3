//! The handle to a cassette's storage: the path of the file that holds it.
//!
//! Reading and writing the file itself is the embedding program's job; the
//! session hands it the complete wire form on `close`, to be written
//! atomically, and takes the file's bytes when it is opened.

use vstd::prelude::*;

verus! {

/// Names the file behind one cassette.
pub struct ReplayFile {
    path: Vec<u8>,
}

impl View for ReplayFile {
    type V = Seq<u8>;

    closed spec fn view(&self) -> Seq<u8> {
        self.path@
    }
}

impl ReplayFile {
    /// A handle to the cassette file at `path`.
    pub fn new(path: Vec<u8>) -> (r: Self)
        ensures
            r@ == path@,
    {
        ReplayFile { path }
    }

    /// The path of the cassette file.
    pub fn path(&self) -> (r: &Vec<u8>)
        ensures
            r@ == self@,
    {
        &self.path
    }
}

} // verus!
