//! Status accumulator for a validation run: ordered sequences of unresolved
//! and unmined transaction ids, failures, warnings and info entries, merged
//! by concatenation and reduced to a four-valued verdict.

use vstd::prelude::*;

use crate::schema_id::SchemaId;
use crate::types::{
    AssignmentType, BundleId, ExtensionType, FungibleType, GlobalStateType, OccurrencesMismatch,
    OpId, OpType, Opout, SecretSeal, StateType, TransitionType, Txid, ValencyType,
};

verus! {

/// Final verdict over a validation run, derived from a [`Status`].
#[derive(Clone, Copy, PartialEq, Eq, Structural, PartialOrd, Ord, Hash, Debug)]
pub enum Validity {
    Valid,
    ValidExceptEndpoints,
    UnresolvedTransactions,
    Invalid,
}

/// A single definitive defect found during validation.
#[derive(Clone, PartialEq, Eq, Debug)]
pub enum Failure {
    /// The schema supplied for the validation does not match the schema id
    /// declared by the contract's genesis.
    SchemaMismatch { expected: SchemaId, actual: SchemaId },

    /// The subschema does not satisfy the root schema requirements for a
    /// global state type.
    SubschemaGlobalStateMismatch(GlobalStateType),
    /// The subschema does not satisfy the root schema requirements for an
    /// assignment type.
    SubschemaAssignmentTypeMismatch(AssignmentType),
    /// The subschema does not satisfy the root schema requirements for a
    /// valency type.
    SubschemaValencyTypeMismatch(ValencyType),
    /// The subschema does not satisfy the root schema requirements for a
    /// transition type.
    SubschemaTransitionTypeMismatch(TransitionType),
    /// The subschema does not satisfy the root schema requirements for an
    /// extension type.
    SubschemaExtensionTypeMismatch(ExtensionType),

    /// The subschema does not satisfy the root schema requirements for a
    /// global state type used in an operation kind.
    SubschemaOpGlobalStateMismatch(OpType, GlobalStateType),
    /// The subschema does not satisfy the root schema requirements for an
    /// input type used in an operation kind.
    SubschemaOpInputMismatch(OpType, AssignmentType),
    /// The subschema does not satisfy the root schema requirements for a
    /// redeemed valency type used in an operation kind.
    SubschemaOpRedeemMismatch(OpType, ValencyType),
    /// The subschema does not satisfy the root schema requirements for an
    /// assignment type used in an operation kind.
    SubschemaOpAssignmentsMismatch(OpType, AssignmentType),
    /// The subschema does not satisfy the root schema requirements for a
    /// valency type used in an operation kind.
    SubschemaOpValencyMismatch(OpType, ValencyType),

    /// An operation uses an extension type absent from the schema.
    SchemaUnknownExtensionType(OpId, ExtensionType),
    /// An operation uses a transition type absent from the schema.
    SchemaUnknownTransitionType(OpId, TransitionType),
    /// An operation uses a global state type absent from the schema.
    SchemaUnknownGlobalStateType(OpId, GlobalStateType),
    /// An operation uses an assignment type absent from the schema.
    SchemaUnknownAssignmentType(OpId, AssignmentType),
    /// An operation uses a valency type absent from the schema.
    SchemaUnknownValencyType(OpId, ValencyType),

    /// The number of global state entries of a type violates the schema's
    /// cardinality bound.
    SchemaGlobalStateOccurrences(OpId, GlobalStateType, OccurrencesMismatch),
    /// The number of input entries of a type violates the schema's
    /// cardinality bound.
    SchemaInputOccurrences(OpId, AssignmentType, OccurrencesMismatch),
    /// The number of assignment entries of a type violates the schema's
    /// cardinality bound.
    SchemaAssignmentOccurrences(OpId, AssignmentType, OccurrencesMismatch),

    /// The embedded type system is inconsistent; reserved for the external
    /// type-system contract.
    SchemaTypeSystem,

    /// An operation referenced as a prior input is absent from the
    /// consignment.
    OperationAbsent(OpId),
    /// A state transition referenced by an endpoint is absent from the
    /// consignment.
    TransitionAbsent(OpId),
    /// A referenced transition bundle is not well-formed. Reserved for
    /// bundle-carrying consignments: the engine's model does not carry
    /// bundles, so it never records this failure itself.
    BundleInvalid(BundleId),

    /// A transition is not anchored to any witness transaction.
    NotAnchored(OpId),
    /// The anchor does not commit to the actual transition data.
    NotInAnchor(OpId, Txid),
    /// A transition references a state type absent in the outputs of the
    /// previous transition.
    NoPrevState { opid: OpId, prev_id: OpId, state_type: AssignmentType },
    /// A transition references a non-existing previous output.
    NoPrevOut(OpId, Opout),
    /// A seal present in the history is confidential and cannot be
    /// validated.
    ConfidentialSeal(Opout),
    /// A transition is not a part of the multi-protocol commitment embedded
    /// in the claimed witness transaction.
    MpcInvalid(OpId, Txid),
    /// A witness transaction is not known to the transaction resolver.
    SealNoWitnessTx(Txid),
    /// A transition does not close its seal with the witness transaction;
    /// the description reports the verification defect.
    SealInvalid(OpId, Txid, String),
    /// A transition is not properly anchored to the witness transaction;
    /// the description reports the verification defect.
    AnchorInvalid(OpId, Txid, String),

    /// A valency redeemed by a state extension references a non-existing
    /// parent operation.
    ValencyNoParent { opid: OpId, prev_id: OpId, valency: ValencyType },
    /// A state extension redeems a valency absent in the parent operation.
    NoPrevValency { opid: OpId, prev_id: OpId, valency: ValencyType },

    /// An owned-state entry is of a different kind than the schema declares
    /// for its type.
    StateTypeMismatch {
        opid: OpId,
        state_type: AssignmentType,
        expected: StateType,
        found: StateType,
    },
    /// A fungible state entry uses a different numeric representation than
    /// the schema declares for its type.
    FungibleTypeMismatch {
        opid: OpId,
        state_type: AssignmentType,
        expected: FungibleType,
        found: FungibleType,
    },
    /// A range proof for a confidential fungible amount does not verify.
    /// Reserved for confidential amounts: the engine's model carries only
    /// the state kind, so it never records this failure itself.
    BulletproofsInvalid(OpId, u16, String),
    /// The validation script rejected the operation.
    ScriptFailure(OpId, String),

    /// Custom failure reported by services layered on top of the core.
    Custom(String),
}

/// A non-fatal anomaly found during validation; does not affect [`Validity`].
#[derive(Clone, PartialEq, Eq, Debug)]
pub enum Warning {
    /// A consignment endpoint is declared twice.
    EndpointDuplication(OpId, SecretSeal),
    /// A declared endpoint seal was not found among the transition's
    /// assignments.
    EndpointTransitionSealNotFound(OpId, SecretSeal),
    /// An operation is present in the consignment but not reachable from the
    /// genesis.
    ExcessiveNode(OpId),
    /// An endpoint witness transaction could not be found.
    EndpointTransactionMissed(Txid),

    /// Custom warning reported by services layered on top of the core.
    Custom(String),
}

/// Auxiliary information recorded during validation.
#[derive(Clone, PartialEq, Eq, Debug)]
pub enum Info {
    /// A confidential state entry cannot be checked against the schema.
    /// Reserved for confidential values: the engine's model carries only
    /// the state kind, so it never records this entry itself.
    UncheckableConfidentialState(OpId, u16),

    /// Custom info entry reported by services layered on top of the core.
    Custom(String),
}

/// Mathematical model of a [`Status`]: its five sequences.
#[verifier::ext_equal]
pub struct StatusModel {
    pub unresolved_txids: Seq<Txid>,
    pub unmined_endpoint_txids: Seq<Txid>,
    pub failures: Seq<Failure>,
    pub warnings: Seq<Warning>,
    pub info: Seq<Info>,
}

impl StatusModel {
    /// Concatenation of two statuses: every sequence of `rhs` is appended to
    /// the corresponding sequence of `self`, preserving encounter order.
    pub open spec fn merge(self, rhs: StatusModel) -> StatusModel {
        StatusModel {
            unresolved_txids: self.unresolved_txids + rhs.unresolved_txids,
            unmined_endpoint_txids: self.unmined_endpoint_txids + rhs.unmined_endpoint_txids,
            failures: self.failures + rhs.failures,
            warnings: self.warnings + rhs.warnings,
            info: self.info + rhs.info,
        }
    }

    /// The status with all five sequences empty.
    pub open spec fn empty() -> StatusModel {
        StatusModel {
            unresolved_txids: Seq::empty(),
            unmined_endpoint_txids: Seq::empty(),
            failures: Seq::empty(),
            warnings: Seq::empty(),
            info: Seq::empty(),
        }
    }

    /// Verdict derivation: failures decide between the valid and invalid
    /// families; within each family the transaction-id sequences refine the
    /// verdict. An unresolved witness transaction means ground truth could
    /// not be obtained, so failures found alongside it yield the weaker
    /// `UnresolvedTransactions` verdict instead of `Invalid`.
    pub open spec fn validity(self) -> Validity {
        if self.failures.len() == 0 {
            if self.unmined_endpoint_txids.len() == 0 {
                Validity::Valid
            } else {
                Validity::ValidExceptEndpoints
            }
        } else {
            if self.unresolved_txids.len() == 0 {
                Validity::Invalid
            } else {
                Validity::UnresolvedTransactions
            }
        }
    }
}

/// Accumulator for the findings of one validation run.
#[derive(Clone, Debug)]
pub struct Status {
    pub unresolved_txids: Vec<Txid>,
    pub unmined_endpoint_txids: Vec<Txid>,
    pub failures: Vec<Failure>,
    pub warnings: Vec<Warning>,
    pub info: Vec<Info>,
}

impl View for Status {
    type V = StatusModel;

    open spec fn view(&self) -> StatusModel {
        StatusModel {
            unresolved_txids: self.unresolved_txids@,
            unmined_endpoint_txids: self.unmined_endpoint_txids@,
            failures: self.failures@,
            warnings: self.warnings@,
            info: self.info@,
        }
    }
}

impl Status {
    /// An empty accumulator.
    pub fn new() -> (r: Status)
        ensures
            r@ =~= StatusModel::empty(),
    {
        Status {
            unresolved_txids: Vec::new(),
            unmined_endpoint_txids: Vec::new(),
            failures: Vec::new(),
            warnings: Vec::new(),
            info: Vec::new(),
        }
    }

    /// A status carrying exactly one failure and nothing else.
    pub fn from_error(v: Failure) -> (r: Status)
        ensures
            r@ =~= (StatusModel { failures: seq![v], ..StatusModel::empty() }),
    {
        Status {
            unresolved_txids: Vec::new(),
            unmined_endpoint_txids: Vec::new(),
            failures: vec![v],
            warnings: Vec::new(),
            info: Vec::new(),
        }
    }

    /// A status carrying exactly one failure and nothing else.
    pub fn with_failure(failure: Failure) -> (r: Status)
        ensures
            r@ =~= (StatusModel { failures: seq![failure], ..StatusModel::empty() }),
    {
        Status::from_error(failure)
    }

    /// A status carrying exactly the given failures, in order, and nothing
    /// else.
    pub fn from_failures(failures: Vec<Failure>) -> (r: Status)
        ensures
            r@ =~= (StatusModel { failures: failures@, ..StatusModel::empty() }),
    {
        Status {
            unresolved_txids: Vec::new(),
            unmined_endpoint_txids: Vec::new(),
            failures,
            warnings: Vec::new(),
            info: Vec::new(),
        }
    }

    /// Appends every sequence of `rhs` onto the corresponding sequence of
    /// `self`, preserving encounter order.
    pub fn add_assign(&mut self, rhs: Status)
        ensures
            final(self)@ =~= old(self)@.merge(rhs@),
    {
        let mut rhs = rhs;
        self.unresolved_txids.append(&mut rhs.unresolved_txids);
        self.unmined_endpoint_txids.append(&mut rhs.unmined_endpoint_txids);
        self.failures.append(&mut rhs.failures);
        self.warnings.append(&mut rhs.warnings);
        self.info.append(&mut rhs.info);
    }

    /// Appends one failure.
    pub fn add_failure(&mut self, failure: Failure) -> (r: &Status)
        ensures
            final(self)@ =~= (StatusModel { failures: old(self)@.failures.push(failure), ..old(self)@ }),
            *r == *final(self),
    {
        self.failures.push(failure);
        self
    }

    /// Appends one warning.
    pub fn add_warning(&mut self, warning: Warning) -> (r: &Status)
        ensures
            final(self)@ =~= (StatusModel { warnings: old(self)@.warnings.push(warning), ..old(self)@ }),
            *r == *final(self),
    {
        self.warnings.push(warning);
        self
    }

    /// Appends one info entry.
    pub fn add_info(&mut self, info: Info) -> (r: &Status)
        ensures
            final(self)@ =~= (StatusModel { info: old(self)@.info.push(info), ..old(self)@ }),
            *r == *final(self),
    {
        self.info.push(info);
        self
    }

    /// Records a witness transaction id the resolver could not supply.
    pub fn add_unresolved_txid(&mut self, txid: Txid)
        ensures
            final(self)@ =~= (StatusModel {
                unresolved_txids: old(self)@.unresolved_txids.push(txid),
                ..old(self)@
            }),
    {
        self.unresolved_txids.push(txid);
    }

    /// Records an endpoint witness transaction id that is known but not yet
    /// mined.
    pub fn add_unmined_endpoint_txid(&mut self, txid: Txid)
        ensures
            final(self)@ =~= (StatusModel {
                unmined_endpoint_txids: old(self)@.unmined_endpoint_txids.push(txid),
                ..old(self)@
            }),
    {
        self.unmined_endpoint_txids.push(txid);
    }

    /// Derives the verdict from the accumulated findings. Warnings and info
    /// entries never influence the verdict.
    pub fn validity(&self) -> (r: Validity)
        ensures
            r == self@.validity(),
            (self@.failures.len() == 0 && self@.unmined_endpoint_txids.len() == 0) <==> r == Validity::Valid,
            (self@.failures.len() == 0 && self@.unmined_endpoint_txids.len() > 0) <==> r == Validity::ValidExceptEndpoints,
            (self@.failures.len() > 0 && self@.unresolved_txids.len() == 0) <==> r == Validity::Invalid,
            (self@.failures.len() > 0 && self@.unresolved_txids.len() > 0) <==> r == Validity::UnresolvedTransactions,
    {
        if self.failures.is_empty() {
            if self.unmined_endpoint_txids.is_empty() {
                Validity::Valid
            } else {
                Validity::ValidExceptEndpoints
            }
        } else if self.unresolved_txids.is_empty() {
            Validity::Invalid
        } else {
            Validity::UnresolvedTransactions
        }
    }
}

impl Default for Status {
    /// The empty accumulator.
    fn default() -> (r: Status)
        ensures
            r@ =~= StatusModel::empty(),
    {
        Status::new()
    }
}

/// Merging statuses is associative and order-preserving: folding `b` then
/// `c` into `a` yields the same five sequences, in the same relative order,
/// as folding the concatenation of `b` and `c` into `a`.
pub proof fn lemma_merge_associative(a: StatusModel, b: StatusModel, c: StatusModel)
    ensures
        a.merge(b).merge(c) == a.merge(b.merge(c)),
{
    assert(a.merge(b).merge(c) =~= a.merge(b.merge(c)));
}

/// Merging the empty status on either side changes nothing.
pub proof fn lemma_merge_identity(a: StatusModel)
    ensures
        StatusModel::empty().merge(a) == a,
        a.merge(StatusModel::empty()) == a,
{
    assert(StatusModel::empty().merge(a) =~= a);
    assert(a.merge(StatusModel::empty()) =~= a);
}

} // verus!
