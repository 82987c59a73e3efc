//! The list of las files to read.

use vstd::prelude::*;

verus! {

/// The las files whose points are to be read, in order.
///
/// Reading the files is left to the caller, who takes the paths from
/// [`Reader::paths`].
#[derive(Clone, Debug)]
pub struct Reader {
    paths: Vec<String>,
}

impl Reader {
    /// The paths added so far, in order.
    pub closed spec fn spec_paths(&self) -> Seq<Seq<char>> {
        self.paths@.map_values(|p: String| p@)
    }

    /// Creates a reader with no path.
    pub fn new() -> (r: Reader)
        ensures
            r.spec_paths() == Seq::<Seq<char>>::empty(),
    {
        let r = Reader { paths: Vec::new() };
        assert(r.spec_paths() =~= Seq::<Seq<char>>::empty());
        r
    }

    /// Adds a path after those already added.
    pub fn add_path(self, path: &str) -> (r: Reader)
        ensures
            r.spec_paths() == self.spec_paths().push(path@),
    {
        let mut paths = self.paths;
        paths.push(path.to_owned());
        let r = Reader { paths };
        assert(r.spec_paths() =~= self.spec_paths().push(path@));
        r
    }

    /// The paths added so far, in order.
    pub fn paths(&self) -> (r: &Vec<String>)
        ensures
            r@.map_values(|p: String| p@) == self.spec_paths(),
    {
        &self.paths
    }
}

} // verus!
