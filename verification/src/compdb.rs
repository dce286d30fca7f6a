//! Where the compile command of a file comes from.
use vstd::prelude::*;

verus! {

/// How a file's semantic context was found in the compilation database.
#[derive(Clone, Copy, Debug, PartialEq, Eq, Structural, Hash)]
pub enum SemanticCompdbContextKind {
    Exact,
    PairedSourceHeuristic,
    HeaderConsensus,
    SourceConsensus,
    Absent,
}

impl SemanticCompdbContextKind {
    /// Whether the context was agreed on by other files.
    pub open spec fn is_consensus(self) -> bool {
        self == SemanticCompdbContextKind::HeaderConsensus || self
            == SemanticCompdbContextKind::SourceConsensus
    }

    /// Whether the context was guessed from other files.
    pub open spec fn is_inferred(self) -> bool {
        self == SemanticCompdbContextKind::PairedSourceHeuristic || self.is_consensus()
    }
}

impl Default for SemanticCompdbContextKind {
    fn default() -> (r: SemanticCompdbContextKind)
        ensures
            r == SemanticCompdbContextKind::Absent,
    {
        SemanticCompdbContextKind::Absent
    }
}

} // verus!
