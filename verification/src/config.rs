use vstd::prelude::*;

verus! {

/// Tuning mode of the triage decision.
#[derive(Debug, Clone, Copy, PartialEq, Eq, Structural)]
pub enum TriageMode {
    /// Minimises false negatives: text is rarely missed, more false positives.
    Conservative,
    /// Minimises false positives: only clearly textual images pass.
    Aggressive,
}

} // verus!
