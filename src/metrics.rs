//! Counts of how much representation a problem or a solution has achieved.
use vstd::prelude::*;

verus! {

/// How much representation a problem or a solution has achieved, counted from
/// its own state.
pub struct ProxyMetrics {
    /// How many absent members each present member may represent.
    pub capacity: usize,
    /// How many members in all.
    pub total: usize,
    /// How many members are present.
    pub present: usize,
    /// How many members are absent.
    pub absent: usize,
    /// How many absent members are represented.
    pub represented: usize,
    /// How many absent members cannot be represented.
    pub unrepresented: usize,
}

} // verus!
