use vstd::prelude::*;

verus! {

/// Progress of the text index: entries indexed so far out of all.
pub struct progress_report {
    pub total: Option<i64>,
    pub processed: i64,
}

} // verus!
