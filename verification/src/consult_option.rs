use vstd::prelude::*;

verus! {

/// How a query is answered.
#[derive(Debug)]
pub struct ConsultOption {
    /// Whether to enable fuzzy matching.
    pub fuzzy: bool,
    /// Whether to enable parallel search.
    pub parallel: bool,
    /// Max edit distance on fuzzy matching.
    pub max_dist: usize,
    /// Max count of consulting result per dict.
    pub max_item: usize,
}

impl Default for ConsultOption {
    /// Exact, sequential lookup; fuzzy matching, once switched on, admits
    /// words up to three edits away and keeps the ten best of each dictionary.
    fn default() -> (option: Self)
        ensures
            !option.fuzzy,
            !option.parallel,
            option.max_dist == 3,
            option.max_item == 10,
    {
        Self { fuzzy: false, parallel: false, max_dist: 3, max_item: 10 }
    }
}

} // verus!
