//! Plain value types shared across the schema model, the status accumulator
//! and the validation engine: 32-byte identifiers, type-id aliases, state
//! kinds and cardinality bounds.

use vstd::prelude::*;

verus! {

/// Identifier of an operation (genesis, transition or extension), derived by
/// committing to the operation's canonical encoding.
#[derive(Clone, Copy, PartialEq, Eq, PartialOrd, Ord, Hash, Debug)]
pub struct OpId(pub [u8; 32]);

/// Identifier of a witness transaction on the underlying ledger.
#[derive(Clone, Copy, PartialEq, Eq, PartialOrd, Ord, Hash, Debug)]
pub struct Txid(pub [u8; 32]);

/// Identifier of a transition bundle.
#[derive(Clone, Copy, PartialEq, Eq, PartialOrd, Ord, Hash, Debug)]
pub struct BundleId(pub [u8; 32]);

/// Blinded (confidential) form of a single-use seal.
#[derive(Clone, Copy, PartialEq, Eq, PartialOrd, Ord, Hash, Debug)]
pub struct SecretSeal(pub [u8; 32]);

/// Semantic identifier of a data type within the embedded type system.
#[derive(Clone, Copy, PartialEq, Eq, PartialOrd, Ord, Hash, Debug)]
pub struct SemId(pub [u8; 32]);

/// Type id of a global state entry kind.
pub type GlobalStateType = u16;

/// Type id of an owned-state (assignment) kind.
pub type AssignmentType = u16;

/// Type id of a valency kind.
pub type ValencyType = u16;

/// Type id of a state extension kind.
pub type ExtensionType = u16;

/// Type id of a state transition kind.
pub type TransitionType = u16;

/// Transition type reserved for the synthesized blank transition that closes
/// unused seals.
pub const BLANK_TRANSITION_ID: u16 = 65535;

/// Fast-forward format version of a schema.
pub type Ffv = u16;

/// Reference to a specific owned-state entry: operation id, assignment type
/// and index of the entry among the assignments of that type.
#[derive(Clone, Copy, PartialEq, Eq, PartialOrd, Ord, Hash, Debug)]
pub struct Opout {
    pub op: OpId,
    pub ty: AssignmentType,
    pub no: u16,
}

/// Kind of an operation within a contract's history graph.
#[derive(Clone, Copy, PartialEq, Eq, Structural, Debug)]
pub enum OpType {
    Genesis,
    StateTransition,
    StateExtension,
}

/// Runtime kind of an owned-state value.
#[derive(Clone, Copy, PartialEq, Eq, Structural, Debug)]
pub enum StateType {
    Declarative,
    Fungible,
    Structured,
}

/// Numeric representation kind of a fungible state value.
#[derive(Clone, Copy, PartialEq, Eq, Structural, Debug)]
pub enum FungibleType {
    Unsigned64Bit,
}

/// Inclusive cardinality bound on how many entries of a given type an
/// operation may carry. `max` is an inclusive upper bound; the catch-all
/// "none or more" bound is `(0, u16::MAX)`.
#[derive(Clone, Copy, PartialEq, Eq, Structural, Debug)]
pub struct Occurrences {
    pub min: u16,
    pub max: u16,
}

impl Occurrences {
    /// The bound admitting any non-negative count.
    pub fn none_or_more() -> (r: Occurrences)
        ensures
            r == (Occurrences { min: 0u16, max: u16::MAX }),
    {
        Occurrences { min: 0, max: u16::MAX }
    }

    /// Whether `count` entries satisfy this bound.
    pub open spec fn admits(self, count: u16) -> bool {
        self.min <= count <= self.max
    }

    /// Checks `count` against the bound, reporting the violated bound on
    /// failure.
    pub fn check(&self, count: u16) -> (r: Option<OccurrencesMismatch>)
        ensures
            self.admits(count) <==> r is None,
            r matches Some(m) ==> m == (OccurrencesMismatch {
                min: self.min,
                max: self.max,
                found: count,
            }),
    {
        if self.min <= count && count <= self.max {
            None
        } else {
            Some(OccurrencesMismatch { min: self.min, max: self.max, found: count })
        }
    }
}

/// Actual-versus-expected report for a violated cardinality bound.
#[derive(Clone, Copy, PartialEq, Eq, Structural, Debug)]
pub struct OccurrencesMismatch {
    pub min: u16,
    pub max: u16,
    pub found: u16,
}

} // verus!
