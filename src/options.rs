use vstd::prelude::*;

verus! {

/// Limits that a parse enforces.
#[derive(Debug, Clone, Copy)]
pub struct BbCodeOptions {
    /// Deepest nesting of tag blocks allowed.
    pub max_depth: usize,
    /// Most tags allowed, unclosed ones included.
    pub max_tags: usize,
    /// Largest input allowed, in bytes.
    pub max_input_size: usize,
}

impl Default for BbCodeOptions {
    fn default() -> (r: Self)
        ensures
            r.max_depth == 3,
            r.max_tags == 500,
            r.max_input_size == 51200,
    {
        BbCodeOptions { max_depth: 3, max_tags: 500, max_input_size: 51200 }
    }
}

} // verus!
