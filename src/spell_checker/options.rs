//! Settings of a checking run.
use vstd::prelude::*;

verus! {

/// What to check and against what: target paths, word lists, ignore lists,
/// exclusions, and the inclusive bounds on the length of a checked word.
pub struct Options {
    pub targets: Vec<String>,
    pub wordlists: Vec<String>,
    pub ignore: Vec<String>,
    pub paths_to_exclude: Vec<String>,
    pub extensions: Vec<String>,
    pub extensions_to_exclude: Vec<String>,
    pub min: u16,
    pub max: u16,
}

impl Options {
    /// No paths or extensions, and word lengths from 2 to 20.
    pub open spec fn is_initial(&self) -> bool {
        &&& self.targets@.len() == 0
        &&& self.wordlists@.len() == 0
        &&& self.ignore@.len() == 0
        &&& self.paths_to_exclude@.len() == 0
        &&& self.extensions@.len() == 0
        &&& self.extensions_to_exclude@.len() == 0
        &&& self.min == 2
        &&& self.max == 20
    }

    pub fn new() -> (r: Self)
        ensures
            r.is_initial(),
    {
        Self {
            targets: Vec::new(),
            wordlists: Vec::new(),
            ignore: Vec::new(),
            paths_to_exclude: Vec::new(),
            extensions: Vec::new(),
            extensions_to_exclude: Vec::new(),
            min: 2,
            max: 20,
        }
    }
}

impl Default for Options {
    fn default() -> (r: Self)
        ensures
            r.is_initial(),
    {
        Self::new()
    }
}

} // verus!
