//! Errors of the build planner, graphs and tracker.

use vstd::prelude::*;

verus! {

/// What went wrong; each variant names the offending entity.
#[derive(Debug, Clone, PartialEq, Eq)]
pub enum BuildError {
    /// A hierarchy key (`D:<name>` or `M:<name>`) that was never registered.
    MissingNode(String),
    /// The root design named here has zero or more than one module child.
    AmbiguousOrMissingPrRegion(String),
    /// The flow graph has a cycle through the stage with this key.
    CycleDetected(String),
    /// The external driver reported this failure for a stage.
    StageFailed(String),
    /// Writing or reading the persisted snapshot failed.
    PersistenceError(String),
}

impl BuildError {
    /// What the message says before the entity it names.
    pub open spec fn prefix(&self) -> Seq<char> {
        match self {
            BuildError::MissingNode(_) => "missing hierarchy node "@,
            BuildError::AmbiguousOrMissingPrRegion(_) => "expected exactly one module instance in root design "@,
            BuildError::CycleDetected(_) => "cycle in flow graph through "@,
            BuildError::StageFailed(_) => "stage failed: "@,
            BuildError::PersistenceError(_) => "persistence failed: "@,
        }
    }

    /// The entity or message that the error carries.
    pub open spec fn subject(&self) -> Seq<char> {
        match self {
            BuildError::MissingNode(s) => s@,
            BuildError::AmbiguousOrMissingPrRegion(s) => s@,
            BuildError::CycleDetected(s) => s@,
            BuildError::StageFailed(s) => s@,
            BuildError::PersistenceError(s) => s@,
        }
    }

    /// A one-line description naming the offending entity.
    pub fn message(&self) -> (r: String)
        ensures
            r@ == self.prefix() + self.subject(),
    {
        let (prefix, what) = match self {
            BuildError::MissingNode(k) => ("missing hierarchy node ", k),
            BuildError::AmbiguousOrMissingPrRegion(d) => (
                "expected exactly one module instance in root design ",
                d,
            ),
            BuildError::CycleDetected(k) => ("cycle in flow graph through ", k),
            BuildError::StageFailed(m) => ("stage failed: ", m),
            BuildError::PersistenceError(m) => ("persistence failed: ", m),
        };
        proof {
            reveal_strlit("missing hierarchy node ");
            reveal_strlit("expected exactly one module instance in root design ");
            reveal_strlit("cycle in flow graph through ");
            reveal_strlit("stage failed: ");
            reveal_strlit("persistence failed: ");
        }
        let mut s = String::from_str(prefix);
        s.append(what.as_str());
        s
    }
}

} // verus!
