//! Schema-driven validation engine: walks a contract's operation graph,
//! applies schema conformance, graph-consistency, seal-closure, valency and
//! state checks, and writes every finding into a [`Status`], never aborting
//! on a data problem. The transaction resolver, the cryptographic seal and
//! anchor verifiers and the script engine are external collaborators: their
//! verdicts enter as plain data, and every decision taken over those
//! verdicts is made — and verified — here.

use vstd::prelude::*;

use crate::encoding::{spec_sub_schema_id, sub_schema_wf, SchemaEncode};
use crate::schema::{ExtensionSchema, GenesisSchema, GlobalStateSchema, StateSchema, SubSchema,
    TransitionSchema, TypeMap, TypeSet};
use crate::schema_id::SchemaId;
use crate::status::{Failure, Status, Warning};
use crate::types::{
    AssignmentType, FungibleType, GlobalStateType, Occurrences, OccurrencesMismatch, OpId, OpType,
    Opout, SecretSeal,
    StateType, Txid, ValencyType, BLANK_TRANSITION_ID,
};
use crate::encoding::bytes32_eq;

verus! {

/// A single-use seal declared by an assignment: either revealed (an
/// outpoint on the ledger) or confidential (a blinded hash).
#[derive(Clone, Copy, PartialEq, Eq, Debug)]
pub enum SealDecl {
    /// Revealed seal: witness transaction output it points to.
    Revealed(Txid, u32),
    /// Confidential seal: only the blinded hash is known.
    Confidential(SecretSeal),
}

/// The runtime state carried by one assignment entry.
#[derive(Clone, Copy, PartialEq, Eq, Debug)]
pub enum AssignedState {
    Declarative,
    Fungible(FungibleType),
    Structured,
}

/// One owned-state entry of an operation.
#[derive(Clone, Copy, PartialEq, Eq, Debug)]
pub struct Assignment {
    pub ty: AssignmentType,
    pub seal: SealDecl,
    pub state: AssignedState,
}

/// An operation of the contract graph: one genesis, and transitions and
/// extensions hanging off it. Kind-specific fields are meaningful only for
/// the matching kind: `ty` names the transition or extension type,
/// `inputs` belong to transitions, `redeemed` to extensions.
#[derive(Clone, PartialEq, Eq, Debug)]
pub struct Operation {
    pub id: OpId,
    pub op_type: OpType,
    pub ty: u16,
    pub globals: Vec<GlobalStateType>,
    pub assignments: Vec<Assignment>,
    pub valencies: Vec<ValencyType>,
    pub inputs: Vec<Opout>,
    pub redeemed: Vec<(ValencyType, OpId)>,
}

/// The transferable bundle under validation: the declared schema id, the
/// genesis, every other operation of the history, and the declared
/// endpoints.
#[derive(Clone, PartialEq, Eq, Debug)]
pub struct Consignment {
    pub schema_id: SchemaId,
    pub genesis: Operation,
    pub operations: Vec<Operation>,
    pub endpoints: Vec<(OpId, SecretSeal)>,
}

/// What the transaction resolver reported for a witness transaction.
#[derive(Clone, Copy, PartialEq, Eq, Structural, Debug)]
pub enum WitnessResolution {
    /// The resolver could not supply the transaction.
    Unknown,
    /// The transaction is known but not yet mined.
    Unmined,
    /// The transaction is mined.
    Mined,
}

/// The externally computed facts about one transition's anchor: which
/// witness transaction it claims, whether the anchor commits to the
/// operation, whether the multi-protocol commitment includes it, how the
/// resolver answered, and the outcomes of the cryptographic seal-closure
/// and anchor-inclusion verifications (`None` meaning they passed).
#[derive(Clone, PartialEq, Eq, Debug)]
pub struct AnchorCheck {
    pub opid: OpId,
    pub txid: Txid,
    pub in_anchor: bool,
    pub mpc_proof_valid: bool,
    pub resolution: WitnessResolution,
    pub seal_error: Option<String>,
    pub anchor_error: Option<String>,
}

/// The script engine's verdict on one operation (`None` meaning it
/// passed).
#[derive(Clone, PartialEq, Eq, Debug)]
pub struct ScriptVerdict {
    pub opid: OpId,
    pub error: Option<String>,
}

// ---------------------------------------------------------------------
// Specification predicates
// ---------------------------------------------------------------------

/// How many entries of `s` equal `t`.
pub open spec fn count_of(s: Seq<u16>, t: u16) -> int
    decreases s.len(),
{
    if s.len() == 0 {
        0
    } else {
        count_of(s.drop_last(), t) + if s.last() == t {
            1int
        } else {
            0int
        }
    }
}

/// Whether a key is present in a bounds-entry sequence.
pub open spec fn seq_has_key(s: Seq<(u16, Occurrences)>, t: u16) -> bool {
    exists|i: int| 0 <= i < s.len() && (#[trigger] s[i]).0 == t
}

/// Every declared cardinality bound admits the number of entries present.
pub open spec fn occ_ok_seq(bounds: Seq<(u16, Occurrences)>, entries: Seq<u16>) -> bool {
    forall|j: int|
        0 <= j < bounds.len() ==> ((#[trigger] bounds[j]).1.min as int <= count_of(
            entries,
            bounds[j].0,
        ) && count_of(entries, bounds[j].0) <= bounds[j].1.max as int)
}

/// The types of an assignment list, in order.
pub open spec fn assignment_types_of(s: Seq<Assignment>) -> Seq<u16> {
    s.map_values(|a: Assignment| a.ty)
}

/// The types of an input list, in order.
pub open spec fn input_types_of(s: Seq<Opout>) -> Seq<u16> {
    s.map_values(|o: Opout| o.ty)
}

/// The valency types redeemed by an extension, in order.
pub open spec fn redeem_types_of(s: Seq<(ValencyType, OpId)>) -> Seq<u16> {
    s.map_values(|r: (ValencyType, OpId)| r.0)
}

/// Global-state conformance of one operation: every entry's type is in the
/// schema's global catalog and in the operation schema's bounds, and every
/// bound admits the count present.
pub open spec fn globals_ok(
    entries: Seq<u16>,
    top: TypeMap<GlobalStateSchema>,
    bounds: Seq<(u16, Occurrences)>,
) -> bool {
    &&& forall|j: int|
        0 <= j < entries.len() ==> (top.spec_contains_key(#[trigger] entries[j]) && seq_has_key(
            bounds,
            entries[j],
        ))
    &&& occ_ok_seq(bounds, entries)
}

/// The declared state kind of an owned-state schema.
pub open spec fn declared_state_type(s: StateSchema) -> StateType {
    match s {
        StateSchema::Declarative => StateType::Declarative,
        StateSchema::Fungible(_) => StateType::Fungible,
        StateSchema::Structured(_) => StateType::Structured,
    }
}

/// The runtime state kind of an assignment entry.
pub open spec fn carried_state_type(s: AssignedState) -> StateType {
    match s {
        AssignedState::Declarative => StateType::Declarative,
        AssignedState::Fungible(_) => StateType::Fungible,
        AssignedState::Structured => StateType::Structured,
    }
}

/// Whether a carried state matches its declared schema, kind and numeric
/// representation included.
pub open spec fn state_matches(decl: StateSchema, got: AssignedState) -> bool {
    match decl {
        StateSchema::Declarative => got is Declarative,
        StateSchema::Fungible(ft) => got matches AssignedState::Fungible(g) && g == ft,
        StateSchema::Structured(_) => got is Structured,
    }
}

/// Owned-state conformance of one operation: every assignment's type is
/// known (top catalog and operation bounds), its state kind matches the
/// declaration, and every bound admits the count present.
pub open spec fn assignments_ok(
    assigns: Seq<Assignment>,
    top: TypeMap<StateSchema>,
    bounds: Seq<(u16, Occurrences)>,
) -> bool {
    &&& forall|k: int|
        0 <= k < assigns.len() ==> (top.spec_contains_key((#[trigger] assigns[k]).ty)
            && seq_has_key(bounds, assigns[k].ty) && (top.spec_contains_key(assigns[k].ty)
            ==> state_matches(top.spec_get(assigns[k].ty)->0, assigns[k].state)))
    &&& occ_ok_seq(bounds, assignment_types_of(assigns))
}

/// Valency conformance: every exposed (or redeemed) valency type is in the
/// schema's valency catalog and among the types the operation schema
/// allows.
pub open spec fn valencies_ok(vals: Seq<u16>, top: TypeSet, allowed: TypeSet) -> bool {
    forall|j: int|
        0 <= j < vals.len() ==> (top.spec_contains(#[trigger] vals[j]) && allowed.spec_contains(
            vals[j],
        ))
}

/// The blank transition's bounds over the owned catalog: every owned type,
/// none-or-more.
pub open spec fn blank_bounds(schema: SubSchema) -> Seq<(u16, Occurrences)> {
    schema.owned_types.entries@.map_values(
        |e: (u16, StateSchema)| (e.0, Occurrences { min: 0u16, max: u16::MAX }),
    )
}

/// Schema conformance of a single operation (steps: type existence and
/// occurrence bounds, state kinds, valency membership), under the
/// operation schema selected by the operation's kind and type id.
pub open spec fn op_ok(schema: SubSchema, op: Operation) -> bool {
    match op.op_type {
        OpType::Genesis => {
            &&& globals_ok(op.globals@, schema.global_types, schema.genesis.globals.entries@)
            &&& assignments_ok(
                op.assignments@,
                schema.owned_types,
                schema.genesis.assignments.entries@,
            )
            &&& valencies_ok(op.valencies@, schema.valency_types, schema.genesis.valencies)
        },
        OpType::StateTransition => {
            if op.ty == BLANK_TRANSITION_ID {
                &&& globals_ok(op.globals@, schema.global_types, Seq::empty())
                &&& occ_ok_seq(blank_bounds(schema), input_types_of(op.inputs@))
                &&& assignments_ok(op.assignments@, schema.owned_types, blank_bounds(schema))
                &&& op.valencies@.len() == 0
            } else {
                &&& schema.transitions.spec_contains_key(op.ty)
                &&& {
                    let ts = schema.transitions.spec_get(op.ty)->0;
                    &&& globals_ok(op.globals@, schema.global_types, ts.globals.entries@)
                    &&& occ_ok_seq(ts.inputs.entries@, input_types_of(op.inputs@))
                    &&& assignments_ok(op.assignments@, schema.owned_types, ts.assignments.entries@)
                    &&& valencies_ok(op.valencies@, schema.valency_types, ts.valencies)
                }
            }
        },
        OpType::StateExtension => {
            &&& schema.extensions.spec_contains_key(op.ty)
            &&& {
                let es = schema.extensions.spec_get(op.ty)->0;
                &&& globals_ok(op.globals@, schema.global_types, es.globals.entries@)
                &&& valencies_ok(redeem_types_of(op.redeemed@), schema.valency_types, es.redeems)
                &&& assignments_ok(op.assignments@, schema.owned_types, es.assignments.entries@)
                &&& valencies_ok(op.valencies@, schema.valency_types, es.valencies)
            }
        },
    }
}

/// Type-level root conformance: every type the subschema declares must be
/// declared by the root it subsets. Holds vacuously for a schema with no
/// root.
pub open spec fn root_types_ok(schema: SubSchema) -> bool {
    match schema.subset_of {
        None => true,
        Some(root) => {
            &&& forall|j: int|
                0 <= j < schema.global_types.entries@.len() ==> root.global_types.spec_contains_key(
                    (#[trigger] schema.global_types.entries@[j]).0,
                )
            &&& forall|j: int|
                0 <= j < schema.owned_types.entries@.len() ==> root.owned_types.spec_contains_key(
                    (#[trigger] schema.owned_types.entries@[j]).0,
                )
            &&& forall|j: int|
                0 <= j < schema.valency_types.entries@.len() ==> root.valency_types.spec_contains(
                    #[trigger] schema.valency_types.entries@[j],
                )
            &&& forall|j: int|
                0 <= j < schema.transitions.entries@.len() ==> root.transitions.spec_contains_key(
                    (#[trigger] schema.transitions.entries@[j]).0,
                )
            &&& forall|j: int|
                0 <= j < schema.extensions.entries@.len() ==> root.extensions.spec_contains_key(
                    (#[trigger] schema.extensions.entries@[j]).0,
                )
        },
    }
}

/// One bound is at least as strict as another.
pub open spec fn occ_within(sub: Occurrences, root: Occurrences) -> bool {
    root.min <= sub.min && sub.max <= root.max
}

/// Every bound of the subschema's map is declared by the root's map and at
/// least as strict as the root's bound for the same type.
pub open spec fn bounds_subset(sub: Seq<(u16, Occurrences)>, root: TypeMap<Occurrences>) -> bool {
    forall|j: int|
        0 <= j < sub.len() ==> (root.spec_contains_key((#[trigger] sub[j]).0)
            && (root.spec_contains_key(sub[j].0) ==> occ_within(
            sub[j].1,
            root.spec_get(sub[j].0)->0,
        )))
}

/// Every member of the subschema's set is a member of the root's set.
pub open spec fn set_subset(sub: TypeSet, root: TypeSet) -> bool {
    forall|j: int| 0 <= j < sub.entries@.len() ==> root.spec_contains(#[trigger] sub.entries@[j])
}

/// The subschema's genesis bounds are at least as strict as the root's.
pub open spec fn genesis_subset(sub: GenesisSchema, root: GenesisSchema) -> bool {
    &&& bounds_subset(sub.globals.entries@, root.globals)
    &&& bounds_subset(sub.assignments.entries@, root.assignments)
    &&& set_subset(sub.valencies, root.valencies)
}

/// The subschema's bounds for one transition type are at least as strict
/// as the root's for the same type.
pub open spec fn transition_subset(sub: TransitionSchema, root: TransitionSchema) -> bool {
    &&& bounds_subset(sub.globals.entries@, root.globals)
    &&& bounds_subset(sub.inputs.entries@, root.inputs)
    &&& bounds_subset(sub.assignments.entries@, root.assignments)
    &&& set_subset(sub.valencies, root.valencies)
}

/// The subschema's bounds for one extension type are at least as strict as
/// the root's for the same type.
pub open spec fn extension_subset(sub: ExtensionSchema, root: ExtensionSchema) -> bool {
    &&& bounds_subset(sub.globals.entries@, root.globals)
    &&& set_subset(sub.redeems, root.redeems)
    &&& bounds_subset(sub.assignments.entries@, root.assignments)
    &&& set_subset(sub.valencies, root.valencies)
}

/// Bounds-level root conformance: for every operation schema the subschema
/// shares with its root, the subschema's occurrence bounds must be at
/// least as strict as the root's. Holds vacuously for a schema with no
/// root.
pub open spec fn root_bounds_ok(schema: SubSchema) -> bool {
    match schema.subset_of {
        None => true,
        Some(root) => {
            &&& genesis_subset(schema.genesis, root.genesis)
            &&& forall|j: int|
                (0 <= j < schema.transitions.entries@.len()
                    && root.transitions.spec_contains_key(
                    (#[trigger] schema.transitions.entries@[j]).0,
                )) ==> transition_subset(
                    schema.transitions.entries@[j].1,
                    root.transitions.spec_get(schema.transitions.entries@[j].0)->0,
                )
            &&& forall|j: int|
                (0 <= j < schema.extensions.entries@.len() && root.extensions.spec_contains_key(
                    (#[trigger] schema.extensions.entries@[j]).0,
                )) ==> extension_subset(
                    schema.extensions.entries@[j].1,
                    root.extensions.spec_get(schema.extensions.entries@[j].0)->0,
                )
        },
    }
}

/// Full root conformance: the subschema declares no type its root lacks,
/// and its occurrence bounds are at least as strict as the root's.
pub open spec fn root_ok(schema: SubSchema) -> bool {
    root_types_ok(schema) && root_bounds_ok(schema)
}

/// All operations of a consignment, genesis first.
pub open spec fn ops_seq(c: Consignment) -> Seq<Operation> {
    seq![c.genesis] + c.operations@
}

/// First operation with the given id, scanning genesis first and then the
/// operation list in order.
pub open spec fn lookup_in(s: Seq<Operation>, id: OpId) -> Option<Operation>
    decreases s.len(),
{
    if s.len() == 0 {
        None
    } else if s[0].id == id {
        Some(s[0])
    } else {
        lookup_in(s.drop_first(), id)
    }
}

/// The operation a prior-operation reference resolves to, if present.
pub open spec fn lookup_op(c: Consignment, id: OpId) -> Option<Operation> {
    lookup_in(ops_seq(c), id)
}

/// The `no`-th assignment of the given type, in declaration order.
pub open spec fn find_nth(s: Seq<Assignment>, ty: u16, no: int) -> Option<Assignment>
    decreases s.len(),
{
    if s.len() == 0 {
        None
    } else if s[0].ty == ty {
        if no == 0 {
            Some(s[0])
        } else {
            find_nth(s.drop_first(), ty, no - 1)
        }
    } else {
        find_nth(s.drop_first(), ty, no)
    }
}

/// A transition input is consistent: the prior operation is present in the
/// consignment, it has an assignment at the referenced type and index, and
/// that assignment's seal is revealed.
pub open spec fn input_ok(c: Consignment, inp: Opout) -> bool {
    match lookup_op(c, inp.op) {
        None => false,
        Some(prev) => match find_nth(prev.assignments@, inp.ty, inp.no as int) {
            None => false,
            Some(a) => a.seal is Revealed,
        },
    }
}

/// A redeemed valency is consistent: the parent operation is present and
/// actually exposes the valency.
pub open spec fn redeem_ok(c: Consignment, red: (ValencyType, OpId)) -> bool {
    match lookup_op(c, red.1) {
        None => false,
        Some(parent) => count_of(parent.valencies@, red.0) > 0,
    }
}

/// Graph consistency of the whole consignment: every transition input and
/// every redeemed valency resolves.
pub open spec fn graph_ok(c: Consignment) -> bool {
    &&& forall|j: int, k: int|
        0 <= j < c.operations@.len() && 0 <= k < (#[trigger] c.operations@[j]).inputs@.len()
            ==> input_ok(c, #[trigger] c.operations@[j].inputs@[k])
    &&& forall|j: int, k: int|
        0 <= j < c.operations@.len() && 0 <= k < (#[trigger] c.operations@[j]).redeemed@.len()
            ==> redeem_ok(c, #[trigger] c.operations@[j].redeemed@[k])
}

/// First anchor record for the given operation id.
pub open spec fn anchor_lookup(w: Seq<AnchorCheck>, id: OpId) -> Option<AnchorCheck>
    decreases w.len(),
{
    if w.len() == 0 {
        None
    } else if w[0].opid == id {
        Some(w[0])
    } else {
        anchor_lookup(w.drop_first(), id)
    }
}

/// A transition's seal closure is fully established: it is anchored, the
/// anchor commits to it, the witness transaction was obtained, the
/// multi-protocol commitment includes the operation, and both the
/// seal-closure and the anchor-inclusion proofs verified.
pub open spec fn anchor_ok(w: Seq<AnchorCheck>, op: Operation) -> bool {
    match anchor_lookup(w, op.id) {
        None => false,
        Some(a) => {
            &&& a.in_anchor
            &&& !(a.resolution is Unknown)
            &&& a.mpc_proof_valid
            &&& a.seal_error is None
            &&& a.anchor_error is None
        },
    }
}

/// Seal closure holds for every transition of the consignment.
pub open spec fn anchors_ok(c: Consignment, w: Seq<AnchorCheck>) -> bool {
    forall|j: int|
        0 <= j < c.operations@.len() && (#[trigger] c.operations@[j]).op_type
            is StateTransition ==> anchor_ok(w, c.operations@[j])
}

/// Some transition's witness transaction could not be resolved: the ground
/// truth is missing, which weakens the final verdict.
pub open spec fn has_unresolved(c: Consignment, w: Seq<AnchorCheck>) -> bool {
    exists|j: int|
        0 <= j < c.operations@.len() && (#[trigger] c.operations@[j]).op_type is StateTransition
            && (anchor_lookup(w, c.operations@[j].id) matches Some(a) && a.resolution is Unknown)
}

/// Every endpoint's transition is present in the consignment.
pub open spec fn endpoints_present(c: Consignment) -> bool {
    forall|j: int|
        0 <= j < c.endpoints@.len() ==> lookup_op(c, (#[trigger] c.endpoints@[j]).0) is Some
}

/// An operation carries the given confidential seal among its assignments.
pub open spec fn seal_found(op: Operation, seal: SecretSeal) -> bool {
    exists|k: int|
        0 <= k < op.assignments@.len() && (#[trigger] op.assignments@[k]).seal
            == SealDecl::Confidential(seal)
}

/// No endpoint anomaly was found: no duplicate declarations, every present
/// endpoint operation carries its declared seal, and no endpoint witness
/// transaction is missing from the resolver.
pub open spec fn endpoint_warnings_none(c: Consignment, w: Seq<AnchorCheck>) -> bool {
    &&& forall|i: int, j: int|
        0 <= i < j < c.endpoints@.len() ==> #[trigger] c.endpoints@[i] != #[trigger] c.endpoints@[j]
    &&& forall|j: int|
        (0 <= j < c.endpoints@.len() && lookup_op(c, (#[trigger] c.endpoints@[j]).0) is Some)
            ==> seal_found(lookup_op(c, c.endpoints@[j].0)->0, c.endpoints@[j].1)
    &&& forall|j: int|
        (0 <= j < c.endpoints@.len() && lookup_op(c, (#[trigger] c.endpoints@[j]).0) is Some
            && (anchor_lookup(w, c.endpoints@[j].0) matches Some(a))) ==> !((anchor_lookup(
            w,
            c.endpoints@[j].0,
        ))->0.resolution is Unknown)
}

/// Some declared endpoint's closing transaction is known but not yet
/// mined: the history is consistent but its tip is unconfirmed.
pub open spec fn has_unmined_endpoint(c: Consignment, w: Seq<AnchorCheck>) -> bool {
    exists|j: int|
        0 <= j < c.endpoints@.len() && lookup_op(c, (#[trigger] c.endpoints@[j]).0) is Some
            && (anchor_lookup(w, c.endpoints@[j].0) matches Some(a) && a.resolution is Unmined)
}

/// An operation directly references another by id, through an input or a
/// redeemed valency.
pub open spec fn references(op: Operation, id: OpId) -> bool {
    (exists|k: int| 0 <= k < op.inputs@.len() && (#[trigger] op.inputs@[k]).op == id) || (exists|
        k: int,
    |
        0 <= k < op.redeemed@.len() && (#[trigger] op.redeemed@[k]).1 == id)
}

/// Whether operation `j` is connected to the genesis within `k` reference
/// steps: it references the genesis directly, or it references an
/// operation connected within one step fewer.
pub open spec fn connected_within(c: Consignment, j: int, k: nat) -> bool
    decreases k,
{
    ||| references(c.operations@[j], c.genesis.id)
    ||| (k > 0 && exists|j2: int|
        0 <= j2 < c.operations@.len() && references(
            c.operations@[j],
            (#[trigger] c.operations@[j2]).id,
        ) && connected_within(c, j2, (k - 1) as nat))
}

/// An operation is connected to the genesis: a chain of references leads
/// from it to the genesis. A minimal chain never repeats an operation, so
/// as many steps as there are operations suffice.
pub open spec fn connected(c: Consignment, j: int) -> bool {
    connected_within(c, j, c.operations@.len())
}

/// Every operation of the consignment is connected to the genesis.
pub open spec fn all_connected(c: Consignment) -> bool {
    forall|j: int| 0 <= j < c.operations@.len() ==> connected(c, j)
}

/// The script engine rejected no operation.
pub open spec fn scripts_ok(scripts: Seq<ScriptVerdict>) -> bool {
    forall|j: int| 0 <= j < scripts.len() ==> (#[trigger] scripts[j]).error is None
}

/// Full conformance of a consignment under a schema, given the witness and
/// script verdicts: no check of the validation run records a failure
/// exactly when this predicate holds.
pub open spec fn conforms(
    c: Consignment,
    schema: SubSchema,
    w: Seq<AnchorCheck>,
    scripts: Seq<ScriptVerdict>,
) -> bool {
    &&& root_ok(schema)
    &&& op_ok(schema, c.genesis)
    &&& forall|j: int| 0 <= j < c.operations@.len() ==> op_ok(schema, #[trigger] c.operations@[j])
    &&& graph_ok(c)
    &&& anchors_ok(c, w)
    &&& endpoints_present(c)
    &&& scripts_ok(scripts)
}

/// Structural sanity of a consignment: the genesis is a genesis, every
/// other operation is a transition or an extension, and kind-specific
/// fields are used only by their kind.
pub open spec fn consignment_wf(c: Consignment) -> bool {
    &&& c.operations@.len() < usize::MAX
    &&& c.genesis.op_type is Genesis
    &&& c.genesis.inputs@.len() == 0
    &&& c.genesis.redeemed@.len() == 0
    &&& forall|j: int|
        0 <= j < c.operations@.len() ==> ((#[trigger] c.operations@[j]).op_type is StateTransition
            || c.operations@[j].op_type is StateExtension)
    &&& forall|j: int|
        0 <= j < c.operations@.len() && (#[trigger] c.operations@[j]).op_type is StateTransition
            ==> c.operations@[j].redeemed@.len() == 0
    &&& forall|j: int|
        0 <= j < c.operations@.len() && (#[trigger] c.operations@[j]).op_type is StateExtension
            ==> c.operations@[j].inputs@.len() == 0
}

// ---------------------------------------------------------------------
// Executable checks
// ---------------------------------------------------------------------

/// Category of an occurrence bound, selecting the failure it reports.
#[derive(Clone, Copy, PartialEq, Eq, Structural, Debug)]
enum OccCategory {
    Global,
    Input,
    Assignment,
}

/// An element of a sequence stays present in any extension that keeps the
/// original indices.
proof fn lemma_frame_contains<T>(a: Seq<T>, b: Seq<T>, x: T)
    requires
        a.len() <= b.len(),
        forall|i: int| 0 <= i < a.len() ==> #[trigger] b[i] == a[i],
        a.contains(x),
    ensures
        b.contains(x),
{
    let w = choose|w: int| 0 <= w < a.len() && a[w] == x;
    assert(b[w] == x);
}

/// Counts the entries of `v` equal to `t`.
fn count_types(v: &Vec<u16>, t: u16) -> (r: usize)
    ensures
        r == count_of(v@, t),
{
    let n = v.len();
    let mut r: usize = 0;
    let mut i: usize = 0;
    proof {
        assert(v@.take(0) =~= Seq::<u16>::empty());
    }
    while i < n
        invariant
            i <= n,
            n == v@.len(),
            r <= i,
            r == count_of(v@.take(i as int), t),
        decreases n - i,
    {
        proof {
            let t1 = v@.take(i + 1 as int);
            assert(t1.drop_last() =~= v@.take(i as int));
            assert(t1.last() == v@[i as int]);
        }
        if v[i] == t {
            r = r + 1;
        }
        i = i + 1;
    }
    proof {
        assert(v@.take(n as int) =~= v@);
    }
    r
}

/// Collects the type of each assignment, in order.
fn collect_assignment_types(v: &Vec<Assignment>) -> (r: Vec<u16>)
    ensures
        r@ == assignment_types_of(v@),
{
    let n = v.len();
    let mut r: Vec<u16> = Vec::new();
    let mut i: usize = 0;
    proof {
        assert(r@ =~= assignment_types_of(v@.take(0)));
    }
    while i < n
        invariant
            i <= n,
            n == v@.len(),
            r@ =~= assignment_types_of(v@.take(i as int)),
        decreases n - i,
    {
        r.push(v[i].ty);
        proof {
            assert(assignment_types_of(v@.take(i + 1 as int)) =~= assignment_types_of(
                v@.take(i as int),
            ).push(v@[i as int].ty));
        }
        i = i + 1;
    }
    proof {
        assert(v@.take(n as int) =~= v@);
        assert(r@ =~= assignment_types_of(v@));
    }
    r
}

/// Collects the type of each input, in order.
fn collect_input_types(v: &Vec<Opout>) -> (r: Vec<u16>)
    ensures
        r@ == input_types_of(v@),
{
    let n = v.len();
    let mut r: Vec<u16> = Vec::new();
    let mut i: usize = 0;
    proof {
        assert(r@ =~= input_types_of(v@.take(0)));
    }
    while i < n
        invariant
            i <= n,
            n == v@.len(),
            r@ =~= input_types_of(v@.take(i as int)),
        decreases n - i,
    {
        r.push(v[i].ty);
        proof {
            assert(input_types_of(v@.take(i + 1 as int)) =~= input_types_of(
                v@.take(i as int),
            ).push(v@[i as int].ty));
        }
        i = i + 1;
    }
    proof {
        assert(v@.take(n as int) =~= v@);
        assert(r@ =~= input_types_of(v@));
    }
    r
}

/// Collects the valency type of each redeem, in order.
fn collect_redeem_types(v: &Vec<(ValencyType, OpId)>) -> (r: Vec<u16>)
    ensures
        r@ == redeem_types_of(v@),
{
    let n = v.len();
    let mut r: Vec<u16> = Vec::new();
    let mut i: usize = 0;
    proof {
        assert(r@ =~= redeem_types_of(v@.take(0)));
    }
    while i < n
        invariant
            i <= n,
            n == v@.len(),
            r@ =~= redeem_types_of(v@.take(i as int)),
        decreases n - i,
    {
        r.push(v[i].0);
        proof {
            assert(redeem_types_of(v@.take(i + 1 as int)) =~= redeem_types_of(
                v@.take(i as int),
            ).push(v@[i as int].0));
        }
        i = i + 1;
    }
    proof {
        assert(v@.take(n as int) =~= v@);
        assert(r@ =~= redeem_types_of(v@));
    }
    r
}

/// A key is in an occurrence map exactly when it is among its entries.
proof fn lemma_map_has_key(m: TypeMap<Occurrences>, t: u16)
    ensures
        m.spec_contains_key(t) == seq_has_key(m.entries@, t),
{
    if m.spec_contains_key(t) {
        let w = choose|w: int| 0 <= w < m.entries@.len() && (#[trigger] m.entries@[w]).0 == t;
        assert(0 <= w < m.entries@.len() && (m.entries@[w]).0 == t);
        assert(seq_has_key(m.entries@, t));
    }
    if seq_has_key(m.entries@, t) {
        let w = choose|w: int| 0 <= w < m.entries@.len() && (#[trigger] m.entries@[w]).0 == t;
        assert(m.spec_contains_key(t));
    }
}

/// Checks every cardinality bound of one category against the entry types
/// present, recording a failure for each violated bound.
fn check_occ(
    st: &mut Status,
    cat: OccCategory,
    opid: OpId,
    types: &Vec<u16>,
    bounds: &TypeMap<Occurrences>,
)
    ensures
        final(st)@.warnings == old(st)@.warnings,
        final(st)@.info == old(st)@.info,
        final(st)@.unresolved_txids == old(st)@.unresolved_txids,
        final(st)@.unmined_endpoint_txids == old(st)@.unmined_endpoint_txids,
        old(st)@.failures.len() <= final(st)@.failures.len(),
        forall|i: int|
            0 <= i < old(st)@.failures.len() ==> #[trigger] final(st)@.failures[i] == old(
                st,
            )@.failures[i],
        (final(st)@.failures.len() == old(st)@.failures.len()) <==> occ_ok_seq(
            bounds.entries@,
            types@,
        ),
{
    let ghost pre = *st;
    let n = bounds.entries.len();
    let mut j: usize = 0;
    while j < n
        invariant
            j <= n,
            n == bounds.entries@.len(),
            pre == *old(st),
            st@.warnings == pre@.warnings,
            st@.info == pre@.info,
            st@.unresolved_txids == pre@.unresolved_txids,
            st@.unmined_endpoint_txids == pre@.unmined_endpoint_txids,
            pre@.failures.len() <= st@.failures.len(),
            forall|i2: int|
                0 <= i2 < pre@.failures.len() ==> #[trigger] st@.failures[i2] == pre@.failures[i2],
            (st@.failures.len() == pre@.failures.len()) <==> (forall|q: int|
                0 <= q < j ==> ((#[trigger] bounds.entries@[q]).1.min as int <= count_of(
                    types@,
                    bounds.entries@[q].0,
                ) && count_of(types@, bounds.entries@[q].0) <= bounds.entries@[q].1.max as int)),
        decreases n - j,
    {
        let e = &bounds.entries[j];
        let cnt = count_types(types, e.0);
        let ok = (e.1.min as usize) <= cnt && cnt <= (e.1.max as usize);
        if !ok {
            let found: u16 = if cnt > 65535 {
                65535u16
            } else {
                cnt as u16
            };
            let mm = OccurrencesMismatch { min: e.1.min, max: e.1.max, found };
            match cat {
                OccCategory::Global => {
                    st.failures.push(Failure::SchemaGlobalStateOccurrences(opid, e.0, mm));
                },
                OccCategory::Input => {
                    st.failures.push(Failure::SchemaInputOccurrences(opid, e.0, mm));
                },
                OccCategory::Assignment => {
                    st.failures.push(Failure::SchemaAssignmentOccurrences(opid, e.0, mm));
                },
            }
        }
        j = j + 1;
    }
}

/// Checks that every global-state entry's type is known to the schema and
/// bounded by the operation schema.
fn check_globals_known(
    st: &mut Status,
    opid: OpId,
    types: &Vec<u16>,
    top: &TypeMap<GlobalStateSchema>,
    bounds: &TypeMap<Occurrences>,
)
    requires
        top.wf(),
        bounds.wf(),
    ensures
        final(st)@.warnings == old(st)@.warnings,
        final(st)@.info == old(st)@.info,
        final(st)@.unresolved_txids == old(st)@.unresolved_txids,
        final(st)@.unmined_endpoint_txids == old(st)@.unmined_endpoint_txids,
        old(st)@.failures.len() <= final(st)@.failures.len(),
        forall|i: int|
            0 <= i < old(st)@.failures.len() ==> #[trigger] final(st)@.failures[i] == old(
                st,
            )@.failures[i],
        (final(st)@.failures.len() == old(st)@.failures.len()) <==> (forall|q: int|
            0 <= q < types@.len() ==> (top.spec_contains_key(#[trigger] types@[q]) && seq_has_key(
                bounds.entries@,
                types@[q],
            ))),
        forall|q: int|
            0 <= q < types@.len() && !(top.spec_contains_key(#[trigger] types@[q]) && seq_has_key(
                bounds.entries@,
                types@[q],
            )) ==> final(st)@.failures.contains(
                Failure::SchemaUnknownGlobalStateType(opid, types@[q]),
            ),
{
    let ghost pre = *st;
    let n = types.len();
    let mut i: usize = 0;
    while i < n
        invariant
            i <= n,
            n == types@.len(),
            pre == *old(st),
            top.wf(),
            bounds.wf(),
            st@.warnings == pre@.warnings,
            st@.info == pre@.info,
            st@.unresolved_txids == pre@.unresolved_txids,
            st@.unmined_endpoint_txids == pre@.unmined_endpoint_txids,
            pre@.failures.len() <= st@.failures.len(),
            forall|i2: int|
                0 <= i2 < pre@.failures.len() ==> #[trigger] st@.failures[i2] == pre@.failures[i2],
            (st@.failures.len() == pre@.failures.len()) <==> (forall|q: int|
                0 <= q < i ==> (top.spec_contains_key(#[trigger] types@[q]) && seq_has_key(
                    bounds.entries@,
                    types@[q],
                ))),
            forall|q: int|
                0 <= q < i && !(top.spec_contains_key(#[trigger] types@[q]) && seq_has_key(
                    bounds.entries@,
                    types@[q],
                )) ==> st@.failures.contains(
                    Failure::SchemaUnknownGlobalStateType(opid, types@[q]),
                ),
        decreases n - i,
    {
        let ghost stp = *st;
        let t = types[i];
        let known = top.contains_key(t) && bounds.contains_key(t);
        proof {
            lemma_map_has_key(*bounds, t);
        }
        if !known {
            st.failures.push(Failure::SchemaUnknownGlobalStateType(opid, t));
            proof {
                assert(st@.failures[st@.failures.len() - 1] == Failure::SchemaUnknownGlobalStateType(
                    opid,
                    t,
                ));
            }
        }
        proof {
            assert forall|q: int|
                0 <= q < i + 1 && !(top.spec_contains_key(#[trigger] types@[q]) && seq_has_key(
                    bounds.entries@,
                    types@[q],
                )) implies st@.failures.contains(
                Failure::SchemaUnknownGlobalStateType(opid, types@[q]),
            ) by {
                if q < i {
                    lemma_frame_contains(
                        stp@.failures,
                        st@.failures,
                        Failure::SchemaUnknownGlobalStateType(opid, types@[q]),
                    );
                }
            }
        }
        i = i + 1;
    }
}

/// Checks every assignment entry: its type must be known to the schema and
/// bounded by the operation schema, and its state kind must match the
/// declaration.
fn check_assignments_detail(
    st: &mut Status,
    opid: OpId,
    assigns: &Vec<Assignment>,
    top: &TypeMap<StateSchema>,
    bounds: &TypeMap<Occurrences>,
)
    requires
        top.wf(),
        bounds.wf(),
    ensures
        final(st)@.warnings == old(st)@.warnings,
        final(st)@.info == old(st)@.info,
        final(st)@.unresolved_txids == old(st)@.unresolved_txids,
        final(st)@.unmined_endpoint_txids == old(st)@.unmined_endpoint_txids,
        old(st)@.failures.len() <= final(st)@.failures.len(),
        forall|i: int|
            0 <= i < old(st)@.failures.len() ==> #[trigger] final(st)@.failures[i] == old(
                st,
            )@.failures[i],
        (final(st)@.failures.len() == old(st)@.failures.len()) <==> (forall|k: int|
            0 <= k < assigns@.len() ==> (top.spec_contains_key((#[trigger] assigns@[k]).ty)
                && seq_has_key(bounds.entries@, assigns@[k].ty) && (top.spec_contains_key(
                assigns@[k].ty,
            ) ==> state_matches(top.spec_get(assigns@[k].ty)->0, assigns@[k].state)))),
{
    let ghost pre = *st;
    let n = assigns.len();
    let mut k: usize = 0;
    while k < n
        invariant
            k <= n,
            n == assigns@.len(),
            pre == *old(st),
            top.wf(),
            bounds.wf(),
            st@.warnings == pre@.warnings,
            st@.info == pre@.info,
            st@.unresolved_txids == pre@.unresolved_txids,
            st@.unmined_endpoint_txids == pre@.unmined_endpoint_txids,
            pre@.failures.len() <= st@.failures.len(),
            forall|i2: int|
                0 <= i2 < pre@.failures.len() ==> #[trigger] st@.failures[i2] == pre@.failures[i2],
            (st@.failures.len() == pre@.failures.len()) <==> (forall|q: int|
                0 <= q < k ==> (top.spec_contains_key((#[trigger] assigns@[q]).ty) && seq_has_key(
                    bounds.entries@,
                    assigns@[q].ty,
                ) && (top.spec_contains_key(assigns@[q].ty) ==> state_matches(
                    top.spec_get(assigns@[q].ty)->0,
                    assigns@[q].state,
                )))),
        decreases n - k,
    {
        let a = &assigns[k];
        proof {
            lemma_map_has_key(*bounds, a.ty);
        }
        match top.get(a.ty) {
            None => {
                st.failures.push(Failure::SchemaUnknownAssignmentType(opid, a.ty));
            },
            Some(decl) => {
                match (decl, &a.state) {
                    (StateSchema::Declarative, AssignedState::Declarative) => {},
                    (StateSchema::Fungible(ft), AssignedState::Fungible(g)) => {
                        if *ft != *g {
                            st.failures.push(
                                Failure::FungibleTypeMismatch {
                                    opid,
                                    state_type: a.ty,
                                    expected: *ft,
                                    found: *g,
                                },
                            );
                        }
                    },
                    (StateSchema::Structured(_), AssignedState::Structured) => {},
                    _ => {
                        let expected = match decl {
                            StateSchema::Declarative => StateType::Declarative,
                            StateSchema::Fungible(_) => StateType::Fungible,
                            StateSchema::Structured(_) => StateType::Structured,
                        };
                        let found = match &a.state {
                            AssignedState::Declarative => StateType::Declarative,
                            AssignedState::Fungible(_) => StateType::Fungible,
                            AssignedState::Structured => StateType::Structured,
                        };
                        st.failures.push(
                            Failure::StateTypeMismatch { opid, state_type: a.ty, expected, found },
                        );
                    },
                }
            },
        }
        if !bounds.contains_key(a.ty) {
            st.failures.push(Failure::SchemaUnknownAssignmentType(opid, a.ty));
        }
        k = k + 1;
    }
}

/// Checks that every valency (exposed or redeemed) is known to the schema
/// and allowed by the operation schema.
fn check_valencies(st: &mut Status, opid: OpId, vals: &Vec<u16>, top: &TypeSet, allowed: &TypeSet)
    ensures
        final(st)@.warnings == old(st)@.warnings,
        final(st)@.info == old(st)@.info,
        final(st)@.unresolved_txids == old(st)@.unresolved_txids,
        final(st)@.unmined_endpoint_txids == old(st)@.unmined_endpoint_txids,
        old(st)@.failures.len() <= final(st)@.failures.len(),
        forall|i: int|
            0 <= i < old(st)@.failures.len() ==> #[trigger] final(st)@.failures[i] == old(
                st,
            )@.failures[i],
        (final(st)@.failures.len() == old(st)@.failures.len()) <==> valencies_ok(
            vals@,
            *top,
            *allowed,
        ),
{
    let ghost pre = *st;
    let n = vals.len();
    let mut i: usize = 0;
    while i < n
        invariant
            i <= n,
            n == vals@.len(),
            pre == *old(st),
            st@.warnings == pre@.warnings,
            st@.info == pre@.info,
            st@.unresolved_txids == pre@.unresolved_txids,
            st@.unmined_endpoint_txids == pre@.unmined_endpoint_txids,
            pre@.failures.len() <= st@.failures.len(),
            forall|i2: int|
                0 <= i2 < pre@.failures.len() ==> #[trigger] st@.failures[i2] == pre@.failures[i2],
            (st@.failures.len() == pre@.failures.len()) <==> (forall|q: int|
                0 <= q < i ==> (top.spec_contains(#[trigger] vals@[q]) && allowed.spec_contains(
                    vals@[q],
                ))),
        decreases n - i,
    {
        let t = vals[i];
        if !(top.contains(t) && allowed.contains(t)) {
            st.failures.push(Failure::SchemaUnknownValencyType(opid, t));
        }
        i = i + 1;
    }
}

/// Byte-wise equality of operation ids.
fn op_id_eq(a: &OpId, b: &OpId) -> (r: bool)
    ensures
        r == (*a == *b),
{
    let r = bytes32_eq(&a.0, &b.0);
    proof {
        if a.0@ =~= b.0@ {
            assert(a.0 =~= b.0);
            assert(*a == *b);
        } else {
            assert(a.0@ != b.0@);
            if *a == *b {
                assert(a.0@ == b.0@);
            }
        }
    }
    r
}

/// Byte-wise equality of secret seals.
fn seal_id_eq(a: &SecretSeal, b: &SecretSeal) -> (r: bool)
    ensures
        r == (*a == *b),
{
    let r = bytes32_eq(&a.0, &b.0);
    proof {
        if a.0@ =~= b.0@ {
            assert(a.0 =~= b.0);
            assert(*a == *b);
        } else {
            assert(a.0@ != b.0@);
            if *a == *b {
                assert(a.0@ == b.0@);
            }
        }
    }
    r
}

/// Schema conformance of a single operation, recording one failure per
/// defect.
fn check_op(st: &mut Status, schema: &SubSchema, op: &Operation)
    requires
        sub_schema_wf(*schema),
    ensures
        final(st)@.warnings == old(st)@.warnings,
        final(st)@.info == old(st)@.info,
        final(st)@.unresolved_txids == old(st)@.unresolved_txids,
        final(st)@.unmined_endpoint_txids == old(st)@.unmined_endpoint_txids,
        old(st)@.failures.len() <= final(st)@.failures.len(),
        forall|i: int|
            0 <= i < old(st)@.failures.len() ==> #[trigger] final(st)@.failures[i] == old(
                st,
            )@.failures[i],
        (final(st)@.failures.len() == old(st)@.failures.len()) <==> op_ok(*schema, *op),
        op.op_type is Genesis ==> (forall|q: int|
            0 <= q < op.globals@.len() && !(schema.global_types.spec_contains_key(
                #[trigger] op.globals@[q],
            ) && seq_has_key(schema.genesis.globals.entries@, op.globals@[q])) ==> final(st)@.failures.contains(Failure::SchemaUnknownGlobalStateType(op.id, op.globals@[q]))),
{
    let ghost pre = *st;
    proof {
        assert(schema.genesis.globals.wf() && schema.genesis.assignments.wf()
            && schema.genesis.valencies.wf());
        assert(schema.global_types.wf() && schema.owned_types.wf());
        assert(schema.transitions.wf() && schema.extensions.wf());
    }
    match op.op_type {
        OpType::Genesis => {
            check_globals_known(st, op.id, &op.globals, &schema.global_types, &schema.genesis.globals);
            let ghost mg = *st;
            check_occ(st, OccCategory::Global, op.id, &op.globals, &schema.genesis.globals);
            let at = collect_assignment_types(&op.assignments);
            check_assignments_detail(
                st,
                op.id,
                &op.assignments,
                &schema.owned_types,
                &schema.genesis.assignments,
            );
            check_occ(st, OccCategory::Assignment, op.id, &at, &schema.genesis.assignments);
            check_valencies(st, op.id, &op.valencies, &schema.valency_types, &schema.genesis.valencies);
            proof {
                assert forall|q: int|
                    0 <= q < op.globals@.len() && !(schema.global_types.spec_contains_key(
                        #[trigger] op.globals@[q],
                    ) && seq_has_key(
                        schema.genesis.globals.entries@,
                        op.globals@[q],
                    )) implies st@.failures.contains(
                    Failure::SchemaUnknownGlobalStateType(op.id, op.globals@[q]),
                ) by {
                    lemma_frame_contains(
                        mg@.failures,
                        st@.failures,
                        Failure::SchemaUnknownGlobalStateType(op.id, op.globals@[q]),
                    );
                }
            }
        },
        OpType::StateTransition => {
            if op.ty == BLANK_TRANSITION_ID {
                let ts = schema.blank_transition();
                proof {
                    assert(ts.inputs.entries@ =~= blank_bounds(*schema));
                    assert(ts.assignments.entries@ =~= blank_bounds(*schema));
                    assert(ts.globals.entries@ =~= Seq::<(u16, Occurrences)>::empty());
                }
                check_globals_known(st, op.id, &op.globals, &schema.global_types, &ts.globals);
                check_occ(st, OccCategory::Global, op.id, &op.globals, &ts.globals);
                let it = collect_input_types(&op.inputs);
                check_occ(st, OccCategory::Input, op.id, &it, &ts.inputs);
                let at = collect_assignment_types(&op.assignments);
                check_assignments_detail(st, op.id, &op.assignments, &schema.owned_types, &ts.assignments);
                check_occ(st, OccCategory::Assignment, op.id, &at, &ts.assignments);
                check_valencies(st, op.id, &op.valencies, &schema.valency_types, &ts.valencies);
                proof {
                    if op.valencies@.len() > 0 {
                        assert(!ts.valencies.spec_contains(op.valencies@[0]));
                        assert(!valencies_ok(op.valencies@, schema.valency_types, ts.valencies));
                    } else {
                        assert(valencies_ok(op.valencies@, schema.valency_types, ts.valencies));
                    }
                }
            } else {
                match schema.transitions.get(op.ty) {
                    None => {
                        st.failures.push(Failure::SchemaUnknownTransitionType(op.id, op.ty));
                    },
                    Some(ts) => {
                        proof {
                            let w = choose|w: int|
                                0 <= w < schema.transitions.entries@.len() && (
                                #[trigger] schema.transitions.entries@[w]).0 == op.ty;
                            assert(schema.transitions.entries@[w].1.enc_wf());
                            assert(ts.globals.wf() && ts.inputs.wf() && ts.assignments.wf()
                                && ts.valencies.wf());
                        }
                        check_globals_known(st, op.id, &op.globals, &schema.global_types, &ts.globals);
                        check_occ(st, OccCategory::Global, op.id, &op.globals, &ts.globals);
                        let it = collect_input_types(&op.inputs);
                        check_occ(st, OccCategory::Input, op.id, &it, &ts.inputs);
                        let at = collect_assignment_types(&op.assignments);
                        check_assignments_detail(
                            st,
                            op.id,
                            &op.assignments,
                            &schema.owned_types,
                            &ts.assignments,
                        );
                        check_occ(st, OccCategory::Assignment, op.id, &at, &ts.assignments);
                        check_valencies(
                            st,
                            op.id,
                            &op.valencies,
                            &schema.valency_types,
                            &ts.valencies,
                        );
                    },
                }
            }
        },
        OpType::StateExtension => {
            match schema.extensions.get(op.ty) {
                None => {
                    st.failures.push(Failure::SchemaUnknownExtensionType(op.id, op.ty));
                },
                Some(es) => {
                    proof {
                        let w = choose|w: int|
                            0 <= w < schema.extensions.entries@.len() && (
                            #[trigger] schema.extensions.entries@[w]).0 == op.ty;
                        assert(schema.extensions.entries@[w].1.enc_wf());
                        assert(es.globals.wf() && es.redeems.wf() && es.assignments.wf()
                            && es.valencies.wf());
                    }
                    check_globals_known(st, op.id, &op.globals, &schema.global_types, &es.globals);
                    check_occ(st, OccCategory::Global, op.id, &op.globals, &es.globals);
                    let rt = collect_redeem_types(&op.redeemed);
                    check_valencies(st, op.id, &rt, &schema.valency_types, &es.redeems);
                    let at = collect_assignment_types(&op.assignments);
                    check_assignments_detail(
                        st,
                        op.id,
                        &op.assignments,
                        &schema.owned_types,
                        &es.assignments,
                    );
                    check_occ(st, OccCategory::Assignment, op.id, &at, &es.assignments);
                    check_valencies(st, op.id, &op.valencies, &schema.valency_types, &es.valencies);
                },
            }
        },
    }
}

/// Root conformance: every type the subschema declares must be declared by
/// its root.
fn check_root(st: &mut Status, schema: &SubSchema)
    requires
        sub_schema_wf(*schema),
    ensures
        final(st)@.warnings == old(st)@.warnings,
        final(st)@.info == old(st)@.info,
        final(st)@.unresolved_txids == old(st)@.unresolved_txids,
        final(st)@.unmined_endpoint_txids == old(st)@.unmined_endpoint_txids,
        old(st)@.failures.len() <= final(st)@.failures.len(),
        forall|i: int|
            0 <= i < old(st)@.failures.len() ==> #[trigger] final(st)@.failures[i] == old(
                st,
            )@.failures[i],
        (final(st)@.failures.len() == old(st)@.failures.len()) <==> root_types_ok(*schema),
{
    let ghost pre = *st;
    match &schema.subset_of {
        None => {},
        Some(root) => {
            let n1 = schema.global_types.entries.len();
            let mut j: usize = 0;
            while j < n1
                invariant
                    j <= n1,
                    n1 == schema.global_types.entries@.len(),
                    pre == *old(st),
                    sub_schema_wf(*schema),
                    schema.subset_of matches Some(r) && r == *root,
                    st@.warnings == pre@.warnings,
                    st@.info == pre@.info,
                    st@.unresolved_txids == pre@.unresolved_txids,
                    st@.unmined_endpoint_txids == pre@.unmined_endpoint_txids,
                    pre@.failures.len() <= st@.failures.len(),
            forall|i2: int|
                0 <= i2 < pre@.failures.len() ==> #[trigger] st@.failures[i2] == pre@.failures[i2],
                    (st@.failures.len() == pre@.failures.len()) <==> (forall|q: int|
                        0 <= q < j ==> root.global_types.spec_contains_key(
                            (#[trigger] schema.global_types.entries@[q]).0,
                        )),
                decreases n1 - j,
            {
                let t = schema.global_types.entries[j].0;
                if !root.global_types.contains_key(t) {
                    st.failures.push(Failure::SubschemaGlobalStateMismatch(t));
                }
                j = j + 1;
            }
            let ghost m1 = *st;
            let n2 = schema.owned_types.entries.len();
            let mut j: usize = 0;
            while j < n2
                invariant
                    j <= n2,
                    n2 == schema.owned_types.entries@.len(),
                    sub_schema_wf(*schema),
                    schema.subset_of matches Some(r) && r == *root,
                    st@.warnings == m1@.warnings,
                    st@.info == m1@.info,
                    st@.unresolved_txids == m1@.unresolved_txids,
                    st@.unmined_endpoint_txids == m1@.unmined_endpoint_txids,
                    m1@.failures.len() <= st@.failures.len(),
            forall|i2: int|
                0 <= i2 < m1@.failures.len() ==> #[trigger] st@.failures[i2]
                    == m1@.failures[i2],
                    (st@.failures.len() == m1@.failures.len()) <==> (forall|q: int|
                        0 <= q < j ==> root.owned_types.spec_contains_key(
                            (#[trigger] schema.owned_types.entries@[q]).0,
                        )),
                decreases n2 - j,
            {
                let t = schema.owned_types.entries[j].0;
                if !root.owned_types.contains_key(t) {
                    st.failures.push(Failure::SubschemaAssignmentTypeMismatch(t));
                }
                j = j + 1;
            }
            let ghost m2 = *st;
            let n3 = schema.valency_types.entries.len();
            let mut j: usize = 0;
            while j < n3
                invariant
                    j <= n3,
                    n3 == schema.valency_types.entries@.len(),
                    sub_schema_wf(*schema),
                    schema.subset_of matches Some(r) && r == *root,
                    st@.warnings == m2@.warnings,
                    st@.info == m2@.info,
                    st@.unresolved_txids == m2@.unresolved_txids,
                    st@.unmined_endpoint_txids == m2@.unmined_endpoint_txids,
                    m2@.failures.len() <= st@.failures.len(),
            forall|i2: int|
                0 <= i2 < m2@.failures.len() ==> #[trigger] st@.failures[i2]
                    == m2@.failures[i2],
                    (st@.failures.len() == m2@.failures.len()) <==> (forall|q: int|
                        0 <= q < j ==> root.valency_types.spec_contains(
                            #[trigger] schema.valency_types.entries@[q],
                        )),
                decreases n3 - j,
            {
                let t = schema.valency_types.entries[j];
                if !root.valency_types.contains(t) {
                    st.failures.push(Failure::SubschemaValencyTypeMismatch(t));
                }
                j = j + 1;
            }
            let ghost m3 = *st;
            let n4 = schema.transitions.entries.len();
            let mut j: usize = 0;
            while j < n4
                invariant
                    j <= n4,
                    n4 == schema.transitions.entries@.len(),
                    sub_schema_wf(*schema),
                    schema.subset_of matches Some(r) && r == *root,
                    st@.warnings == m3@.warnings,
                    st@.info == m3@.info,
                    st@.unresolved_txids == m3@.unresolved_txids,
                    st@.unmined_endpoint_txids == m3@.unmined_endpoint_txids,
                    m3@.failures.len() <= st@.failures.len(),
            forall|i2: int|
                0 <= i2 < m3@.failures.len() ==> #[trigger] st@.failures[i2]
                    == m3@.failures[i2],
                    (st@.failures.len() == m3@.failures.len()) <==> (forall|q: int|
                        0 <= q < j ==> root.transitions.spec_contains_key(
                            (#[trigger] schema.transitions.entries@[q]).0,
                        )),
                decreases n4 - j,
            {
                let t = schema.transitions.entries[j].0;
                if !root.transitions.contains_key(t) {
                    st.failures.push(Failure::SubschemaTransitionTypeMismatch(t));
                }
                j = j + 1;
            }
            let ghost m4 = *st;
            let n5 = schema.extensions.entries.len();
            let mut j: usize = 0;
            while j < n5
                invariant
                    j <= n5,
                    n5 == schema.extensions.entries@.len(),
                    sub_schema_wf(*schema),
                    schema.subset_of matches Some(r) && r == *root,
                    st@.warnings == m4@.warnings,
                    st@.info == m4@.info,
                    st@.unresolved_txids == m4@.unresolved_txids,
                    st@.unmined_endpoint_txids == m4@.unmined_endpoint_txids,
                    m4@.failures.len() <= st@.failures.len(),
            forall|i2: int|
                0 <= i2 < m4@.failures.len() ==> #[trigger] st@.failures[i2]
                    == m4@.failures[i2],
                    (st@.failures.len() == m4@.failures.len()) <==> (forall|q: int|
                        0 <= q < j ==> root.extensions.spec_contains_key(
                            (#[trigger] schema.extensions.entries@[q]).0,
                        )),
                decreases n5 - j,
            {
                let t = schema.extensions.entries[j].0;
                if !root.extensions.contains_key(t) {
                    st.failures.push(Failure::SubschemaExtensionTypeMismatch(t));
                }
                j = j + 1;
            }
        },
    }
}

/// Looks the operation with the given id up: the genesis first, then the
/// operation list in order.
fn find_op<'a>(c: &'a Consignment, id: &OpId) -> (r: Option<&'a Operation>)
    ensures
        r matches Some(o) ==> lookup_op(*c, *id) == Some(*o),
        r is None ==> lookup_op(*c, *id) is None,
{
    proof {
        assert(ops_seq(*c).drop_first() =~= c.operations@);
        assert(ops_seq(*c)[0] == c.genesis);
    }
    if op_id_eq(&c.genesis.id, id) {
        return Some(&c.genesis);
    }
    let n = c.operations.len();
    let mut i: usize = 0;
    proof {
        assert(ops_seq(*c).len() > 0);
        assert(c.operations@.skip(0) =~= c.operations@);
    }
    while i < n
        invariant
            i <= n,
            n == c.operations@.len(),
            lookup_in(c.operations@.skip(i as int), *id) == lookup_op(*c, *id),
        decreases n - i,
    {
        proof {
            assert(c.operations@.skip(i as int)[0] == c.operations@[i as int]);
            assert(c.operations@.skip(i as int).drop_first() =~= c.operations@.skip(i + 1 as int));
        }
        if op_id_eq(&c.operations[i].id, id) {
            return Some(&c.operations[i]);
        }
        i = i + 1;
    }
    proof {
        assert(c.operations@.skip(n as int) =~= Seq::<Operation>::empty());
    }
    None
}

/// Looks the anchor record for the given operation id up, first match.
fn find_anchor<'a>(w: &'a Vec<AnchorCheck>, id: &OpId) -> (r: Option<&'a AnchorCheck>)
    ensures
        r matches Some(a) ==> anchor_lookup(w@, *id) == Some(*a),
        r is None ==> anchor_lookup(w@, *id) is None,
{
    let n = w.len();
    let mut i: usize = 0;
    proof {
        assert(w@.skip(0) =~= w@);
    }
    while i < n
        invariant
            i <= n,
            n == w@.len(),
            anchor_lookup(w@.skip(i as int), *id) == anchor_lookup(w@, *id),
        decreases n - i,
    {
        proof {
            assert(w@.skip(i as int)[0] == w@[i as int]);
            assert(w@.skip(i as int).drop_first() =~= w@.skip(i + 1 as int));
        }
        if op_id_eq(&w[i].opid, id) {
            return Some(&w[i]);
        }
        i = i + 1;
    }
    proof {
        assert(w@.skip(n as int) =~= Seq::<AnchorCheck>::empty());
    }
    None
}

/// Finds the `no`-th assignment of the given type, in declaration order.
fn find_nth_exec<'a>(v: &'a Vec<Assignment>, ty: u16, no: u16) -> (r: Option<&'a Assignment>)
    ensures
        r matches Some(a) ==> find_nth(v@, ty, no as int) == Some(*a),
        r is None ==> find_nth(v@, ty, no as int) is None,
{
    let n = v.len();
    let mut i: usize = 0;
    let mut k: u16 = no;
    proof {
        assert(v@.skip(0) =~= v@);
    }
    while i < n
        invariant
            i <= n,
            n == v@.len(),
            k <= no,
            find_nth(v@.skip(i as int), ty, k as int) == find_nth(v@, ty, no as int),
        decreases n - i,
    {
        proof {
            assert(v@.skip(i as int)[0] == v@[i as int]);
            assert(v@.skip(i as int).drop_first() =~= v@.skip(i + 1 as int));
        }
        if v[i].ty == ty {
            if k == 0 {
                return Some(&v[i]);
            }
            k = k - 1;
        }
        i = i + 1;
    }
    proof {
        assert(v@.skip(n as int) =~= Seq::<Assignment>::empty());
    }
    None
}

/// Graph consistency of one operation: every input must resolve to a
/// revealed prior output, every redeemed valency to a parent exposing it.
fn check_graph_op(st: &mut Status, c: &Consignment, op: &Operation)
    ensures
        final(st)@.warnings == old(st)@.warnings,
        final(st)@.info == old(st)@.info,
        final(st)@.unresolved_txids == old(st)@.unresolved_txids,
        final(st)@.unmined_endpoint_txids == old(st)@.unmined_endpoint_txids,
        old(st)@.failures.len() <= final(st)@.failures.len(),
        forall|i: int|
            0 <= i < old(st)@.failures.len() ==> #[trigger] final(st)@.failures[i] == old(
                st,
            )@.failures[i],
        (final(st)@.failures.len() == old(st)@.failures.len()) <==> ((forall|k: int|
            0 <= k < op.inputs@.len() ==> input_ok(*c, #[trigger] op.inputs@[k])) && (forall|k: int|
            0 <= k < op.redeemed@.len() ==> redeem_ok(*c, #[trigger] op.redeemed@[k]))),
        forall|k: int|
            0 <= k < op.inputs@.len() && (lookup_op(*c, (#[trigger] op.inputs@[k]).op) is None)
                ==> final(st)@.failures.contains(Failure::OperationAbsent(op.inputs@[k].op)),
{
    let ghost pre = *st;
    let n = op.inputs.len();
    let mut k: usize = 0;
    while k < n
        invariant
            k <= n,
            n == op.inputs@.len(),
            pre == *old(st),
            st@.warnings == pre@.warnings,
            st@.info == pre@.info,
            st@.unresolved_txids == pre@.unresolved_txids,
            st@.unmined_endpoint_txids == pre@.unmined_endpoint_txids,
            pre@.failures.len() <= st@.failures.len(),
            forall|i2: int|
                0 <= i2 < pre@.failures.len() ==> #[trigger] st@.failures[i2] == pre@.failures[i2],
            (st@.failures.len() == pre@.failures.len()) <==> (forall|q: int|
                0 <= q < k ==> input_ok(*c, #[trigger] op.inputs@[q])),
            forall|q: int|
                0 <= q < k && (lookup_op(*c, (#[trigger] op.inputs@[q]).op) is None)
                    ==> st@.failures.contains(Failure::OperationAbsent(op.inputs@[q].op)),
        decreases n - k,
    {
        let ghost stp = *st;
        let inp = op.inputs[k];
        match find_op(c, &inp.op) {
            None => {
                st.failures.push(Failure::OperationAbsent(inp.op));
                proof {
                    assert(st@.failures[st@.failures.len() - 1] == Failure::OperationAbsent(
                        inp.op,
                    ));
                }
            },
            Some(prev) => {
                match find_nth_exec(&prev.assignments, inp.ty, inp.no) {
                    None => {
                        // the referenced state type may be missing entirely,
                        // or only the referenced index
                        let pt = collect_assignment_types(&prev.assignments);
                        let cnt = count_types(&pt, inp.ty);
                        if cnt == 0 {
                            st.failures.push(
                                Failure::NoPrevState {
                                    opid: op.id,
                                    prev_id: prev.id,
                                    state_type: inp.ty,
                                },
                            );
                        } else {
                            st.failures.push(Failure::NoPrevOut(op.id, inp));
                        }
                    },
                    Some(a) => {
                        match &a.seal {
                            SealDecl::Confidential(_) => {
                                st.failures.push(Failure::ConfidentialSeal(inp));
                            },
                            SealDecl::Revealed(_, _) => {},
                        }
                    },
                }
            },
        }
        proof {
            assert forall|q: int|
                0 <= q < k + 1 && (lookup_op(*c, (#[trigger] op.inputs@[q]).op) is None) implies st@.failures.contains(
                Failure::OperationAbsent(op.inputs@[q].op),
            ) by {
                if q < k {
                    lemma_frame_contains(
                        stp@.failures,
                        st@.failures,
                        Failure::OperationAbsent(op.inputs@[q].op),
                    );
                }
            }
        }
        k = k + 1;
    }
    let ghost mid = *st;
    let n2 = op.redeemed.len();
    let mut k: usize = 0;
    while k < n2
        invariant
            k <= n2,
            n2 == op.redeemed@.len(),
            st@.warnings == mid@.warnings,
            st@.info == mid@.info,
            st@.unresolved_txids == mid@.unresolved_txids,
            st@.unmined_endpoint_txids == mid@.unmined_endpoint_txids,
            mid@.failures.len() <= st@.failures.len(),
            forall|i2: int|
                0 <= i2 < mid@.failures.len() ==> #[trigger] st@.failures[i2]
                    == mid@.failures[i2],
            (st@.failures.len() == mid@.failures.len()) <==> (forall|q: int|
                0 <= q < k ==> redeem_ok(*c, #[trigger] op.redeemed@[q])),
        decreases n2 - k,
    {
        let red = op.redeemed[k];
        match find_op(c, &red.1) {
            None => {
                st.failures.push(
                    Failure::ValencyNoParent { opid: op.id, prev_id: red.1, valency: red.0 },
                );
            },
            Some(parent) => {
                let cnt = count_types(&parent.valencies, red.0);
                if cnt == 0 {
                    st.failures.push(
                        Failure::NoPrevValency { opid: op.id, prev_id: red.1, valency: red.0 },
                    );
                }
            },
        }
        k = k + 1;
    }
    proof {
        assert forall|k2: int|
            0 <= k2 < op.inputs@.len() && (lookup_op(*c, (#[trigger] op.inputs@[k2]).op)
                is None) implies st@.failures.contains(
            Failure::OperationAbsent(op.inputs@[k2].op),
        ) by {
            lemma_frame_contains(
                mid@.failures,
                st@.failures,
                Failure::OperationAbsent(op.inputs@[k2].op),
            );
        }
    }
}

/// Schema conformance of every operation of the consignment, genesis
/// included.
fn check_ops_all(st: &mut Status, schema: &SubSchema, c: &Consignment)
    requires
        sub_schema_wf(*schema),
    ensures
        final(st)@.warnings == old(st)@.warnings,
        final(st)@.info == old(st)@.info,
        final(st)@.unresolved_txids == old(st)@.unresolved_txids,
        final(st)@.unmined_endpoint_txids == old(st)@.unmined_endpoint_txids,
        old(st)@.failures.len() <= final(st)@.failures.len(),
        forall|i: int|
            0 <= i < old(st)@.failures.len() ==> #[trigger] final(st)@.failures[i] == old(
                st,
            )@.failures[i],
        (final(st)@.failures.len() == old(st)@.failures.len()) <==> (op_ok(*schema, c.genesis)
            && (forall|j: int|
            0 <= j < c.operations@.len() ==> op_ok(*schema, #[trigger] c.operations@[j]))),
        c.genesis.op_type is Genesis ==> (forall|q: int|
            0 <= q < c.genesis.globals@.len() && !(schema.global_types.spec_contains_key(
                #[trigger] c.genesis.globals@[q],
            ) && seq_has_key(schema.genesis.globals.entries@, c.genesis.globals@[q])) ==> final(st)@.failures.contains(
                Failure::SchemaUnknownGlobalStateType(c.genesis.id, c.genesis.globals@[q]),
            )),
{
    let ghost pre = *st;
    check_op(st, schema, &c.genesis);
    let ghost mid = *st;
    let n = c.operations.len();
    let mut j: usize = 0;
    while j < n
        invariant
            j <= n,
            n == c.operations@.len(),
            sub_schema_wf(*schema),
            st@.warnings == mid@.warnings,
            st@.info == mid@.info,
            st@.unresolved_txids == mid@.unresolved_txids,
            st@.unmined_endpoint_txids == mid@.unmined_endpoint_txids,
            mid@.failures.len() <= st@.failures.len(),
            forall|i2: int|
                0 <= i2 < mid@.failures.len() ==> #[trigger] st@.failures[i2]
                    == mid@.failures[i2],
            (st@.failures.len() == mid@.failures.len()) <==> (forall|q: int|
                0 <= q < j ==> op_ok(*schema, #[trigger] c.operations@[q])),
        decreases n - j,
    {
        check_op(st, schema, &c.operations[j]);
        j = j + 1;
    }
    proof {
        if c.genesis.op_type is Genesis {
            assert forall|q: int|
                0 <= q < c.genesis.globals@.len() && !(schema.global_types.spec_contains_key(
                    #[trigger] c.genesis.globals@[q],
                ) && seq_has_key(
                    schema.genesis.globals.entries@,
                    c.genesis.globals@[q],
                )) implies st@.failures.contains(
                Failure::SchemaUnknownGlobalStateType(c.genesis.id, c.genesis.globals@[q]),
            ) by {
                lemma_frame_contains(
                    mid@.failures,
                    st@.failures,
                    Failure::SchemaUnknownGlobalStateType(c.genesis.id, c.genesis.globals@[q]),
                );
            }
        }
    }
}

/// Graph consistency of the whole consignment.
fn check_graph_all(st: &mut Status, c: &Consignment)
    ensures
        final(st)@.warnings == old(st)@.warnings,
        final(st)@.info == old(st)@.info,
        final(st)@.unresolved_txids == old(st)@.unresolved_txids,
        final(st)@.unmined_endpoint_txids == old(st)@.unmined_endpoint_txids,
        old(st)@.failures.len() <= final(st)@.failures.len(),
        forall|i: int|
            0 <= i < old(st)@.failures.len() ==> #[trigger] final(st)@.failures[i] == old(
                st,
            )@.failures[i],
        (final(st)@.failures.len() == old(st)@.failures.len()) <==> graph_ok(*c),
        forall|q: int, k2: int|
            0 <= q < c.operations@.len() && 0 <= k2 < c.operations@[q].inputs@.len() && (
            lookup_op(*c, (#[trigger] c.operations@[q].inputs@[k2]).op) is None) ==> final(st)@.failures.contains(Failure::OperationAbsent(c.operations@[q].inputs@[k2].op)),
{
    let ghost pre = *st;
    let n = c.operations.len();
    let mut j: usize = 0;
    while j < n
        invariant
            j <= n,
            n == c.operations@.len(),
            pre == *old(st),
            st@.warnings == pre@.warnings,
            st@.info == pre@.info,
            st@.unresolved_txids == pre@.unresolved_txids,
            st@.unmined_endpoint_txids == pre@.unmined_endpoint_txids,
            pre@.failures.len() <= st@.failures.len(),
            forall|i2: int|
                0 <= i2 < pre@.failures.len() ==> #[trigger] st@.failures[i2] == pre@.failures[i2],
            forall|q: int, k2: int|
                0 <= q < j && 0 <= k2 < c.operations@[q].inputs@.len() && (lookup_op(
                    *c,
                    (#[trigger] c.operations@[q].inputs@[k2]).op,
                ) is None) ==> st@.failures.contains(
                    Failure::OperationAbsent(c.operations@[q].inputs@[k2].op),
                ),
            (st@.failures.len() == pre@.failures.len()) <==> (forall|q: int, k: int|
                0 <= q < j && 0 <= k < (#[trigger] c.operations@[q]).inputs@.len() ==> input_ok(
                    *c,
                    #[trigger] c.operations@[q].inputs@[k],
                )) && (forall|q: int, k: int|
                0 <= q < j && 0 <= k < (#[trigger] c.operations@[q]).redeemed@.len() ==> redeem_ok(
                    *c,
                    #[trigger] c.operations@[q].redeemed@[k],
                )),
        decreases n - j,
    {
        let ghost stp = *st;
        check_graph_op(st, c, &c.operations[j]);
        proof {
            assert forall|q: int, k2: int|
                0 <= q < j + 1 && 0 <= k2 < c.operations@[q].inputs@.len() && (lookup_op(
                    *c,
                    (#[trigger] c.operations@[q].inputs@[k2]).op,
                ) is None) implies st@.failures.contains(
                Failure::OperationAbsent(c.operations@[q].inputs@[k2].op),
            ) by {
                if q < j {
                    lemma_frame_contains(
                        stp@.failures,
                        st@.failures,
                        Failure::OperationAbsent(c.operations@[q].inputs@[k2].op),
                    );
                }
            }
        }
        j = j + 1;
    }
}

/// Seal closure for every transition, folding the externally supplied
/// anchor facts into failures and unresolved-transaction entries.
fn check_anchors_all(st: &mut Status, c: &Consignment, w: &Vec<AnchorCheck>)
    ensures
        final(st)@.warnings == old(st)@.warnings,
        final(st)@.info == old(st)@.info,
        final(st)@.unmined_endpoint_txids == old(st)@.unmined_endpoint_txids,
        old(st)@.failures.len() <= final(st)@.failures.len(),
        forall|i: int|
            0 <= i < old(st)@.failures.len() ==> #[trigger] final(st)@.failures[i] == old(
                st,
            )@.failures[i],
        old(st)@.unresolved_txids.len() <= final(st)@.unresolved_txids.len(),
        forall|i: int|
            0 <= i < old(st)@.unresolved_txids.len() ==> #[trigger] final(st)@.unresolved_txids[i]
                == old(st)@.unresolved_txids[i],
        (final(st)@.failures.len() == old(st)@.failures.len()) <==> anchors_ok(*c, w@),
        (final(st)@.unresolved_txids.len() == old(st)@.unresolved_txids.len()) <==> !has_unresolved(
            *c,
            w@,
        ),
        forall|q: int|
            0 <= q < c.operations@.len() && (#[trigger] c.operations@[q]).op_type
                is StateTransition && (anchor_lookup(w@, c.operations@[q].id) matches Some(a)
                && a.resolution is Unknown) ==> (final(st)@.failures.contains(
                Failure::SealNoWitnessTx((anchor_lookup(w@, c.operations@[q].id))->0.txid),
            ) && final(st)@.unresolved_txids.contains(
                (anchor_lookup(w@, c.operations@[q].id))->0.txid,
            )),
{
    let ghost pre = *st;
    let n = c.operations.len();
    let mut j: usize = 0;
    while j < n
        invariant
            j <= n,
            n == c.operations@.len(),
            pre == *old(st),
            st@.warnings == pre@.warnings,
            st@.info == pre@.info,
            st@.unmined_endpoint_txids == pre@.unmined_endpoint_txids,
            pre@.failures.len() <= st@.failures.len(),
            forall|i2: int|
                0 <= i2 < pre@.failures.len() ==> #[trigger] st@.failures[i2] == pre@.failures[i2],
            pre@.unresolved_txids.len() <= st@.unresolved_txids.len(),
            forall|i2: int|
                0 <= i2 < pre@.unresolved_txids.len() ==> #[trigger] st@.unresolved_txids[i2]
                    == pre@.unresolved_txids[i2],
            forall|q: int|
                0 <= q < j && (#[trigger] c.operations@[q]).op_type is StateTransition && (
                anchor_lookup(w@, c.operations@[q].id) matches Some(a)
                    && a.resolution is Unknown) ==> (st@.failures.contains(
                    Failure::SealNoWitnessTx((anchor_lookup(w@, c.operations@[q].id))->0.txid),
                ) && st@.unresolved_txids.contains(
                    (anchor_lookup(w@, c.operations@[q].id))->0.txid,
                )),
            (st@.failures.len() == pre@.failures.len()) <==> (forall|q: int|
                0 <= q < j && (#[trigger] c.operations@[q]).op_type is StateTransition
                    ==> anchor_ok(w@, c.operations@[q])),
            (st@.unresolved_txids.len() == pre@.unresolved_txids.len()) <==> (forall|q: int|
                0 <= q < j ==> !((#[trigger] c.operations@[q]).op_type is StateTransition && (
                anchor_lookup(w@, c.operations@[q].id) matches Some(a)
                    && a.resolution is Unknown))),
        decreases n - j,
    {
        let ghost stp = *st;
        let op = &c.operations[j];
        match op.op_type {
            OpType::StateTransition => {
                match find_anchor(w, &op.id) {
                    None => {
                        st.failures.push(Failure::NotAnchored(op.id));
                    },
                    Some(a) => {
                        if !a.in_anchor {
                            st.failures.push(Failure::NotInAnchor(op.id, a.txid));
                        }
                        match a.resolution {
                            WitnessResolution::Unknown => {
                                st.failures.push(Failure::SealNoWitnessTx(a.txid));
                                st.unresolved_txids.push(a.txid);
                                proof {
                                    assert(st@.failures[st@.failures.len() - 1]
                                        == Failure::SealNoWitnessTx(a.txid));
                                    assert(st@.unresolved_txids[st@.unresolved_txids.len() - 1]
                                        == a.txid);
                                }
                            },
                            _ => {
                                if !a.mpc_proof_valid {
                                    st.failures.push(Failure::MpcInvalid(op.id, a.txid));
                                }
                                match &a.seal_error {
                                    Some(e) => {
                                        st.failures.push(
                                            Failure::SealInvalid(op.id, a.txid, e.clone()),
                                        );
                                    },
                                    None => {},
                                }
                                match &a.anchor_error {
                                    Some(e) => {
                                        st.failures.push(
                                            Failure::AnchorInvalid(op.id, a.txid, e.clone()),
                                        );
                                    },
                                    None => {},
                                }
                            },
                        }
                    },
                }
            },
            _ => {},
        }
        proof {
            assert forall|q: int|
                0 <= q < j + 1 && (#[trigger] c.operations@[q]).op_type is StateTransition && (
                anchor_lookup(w@, c.operations@[q].id) matches Some(a)
                    && a.resolution is Unknown) implies (st@.failures.contains(
                Failure::SealNoWitnessTx((anchor_lookup(w@, c.operations@[q].id))->0.txid),
            ) && st@.unresolved_txids.contains(
                (anchor_lookup(w@, c.operations@[q].id))->0.txid,
            )) by {
                if q < j {
                    lemma_frame_contains(
                        stp@.failures,
                        st@.failures,
                        Failure::SealNoWitnessTx((anchor_lookup(w@, c.operations@[q].id))->0.txid),
                    );
                    lemma_frame_contains(
                        stp@.unresolved_txids,
                        st@.unresolved_txids,
                        (anchor_lookup(w@, c.operations@[q].id))->0.txid,
                    );
                }
            }
        }
        j = j + 1;
    }
}

/// Endpoint bookkeeping: dangling endpoints are failures, anomalies are
/// warnings, and an endpoint whose closing transaction is known but
/// unmined is recorded in the unmined-endpoint list rather than failing.
fn check_endpoints_all(st: &mut Status, c: &Consignment, w: &Vec<AnchorCheck>)
    ensures
        final(st)@.info == old(st)@.info,
        final(st)@.unresolved_txids == old(st)@.unresolved_txids,
        old(st)@.failures.len() <= final(st)@.failures.len(),
        forall|i: int|
            0 <= i < old(st)@.failures.len() ==> #[trigger] final(st)@.failures[i] == old(
                st,
            )@.failures[i],
        old(st)@.warnings.len() <= final(st)@.warnings.len(),
        old(st)@.unmined_endpoint_txids.len() <= final(st)@.unmined_endpoint_txids.len(),
        (final(st)@.failures.len() == old(st)@.failures.len()) <==> endpoints_present(*c),
        (final(st)@.warnings.len() == old(st)@.warnings.len()) <==> endpoint_warnings_none(*c, w@),
        (final(st)@.unmined_endpoint_txids.len() == old(st)@.unmined_endpoint_txids.len())
            <==> !has_unmined_endpoint(*c, w@),
{
    let ghost pre = *st;
    let n = c.endpoints.len();
    let mut i: usize = 0;
    while i < n
        invariant
            i <= n,
            n == c.endpoints@.len(),
            pre == *old(st),
            st@.info == pre@.info,
            st@.unresolved_txids == pre@.unresolved_txids,
            pre@.failures.len() <= st@.failures.len(),
            forall|i2: int|
                0 <= i2 < pre@.failures.len() ==> #[trigger] st@.failures[i2] == pre@.failures[i2],
            pre@.warnings.len() <= st@.warnings.len(),
            pre@.unmined_endpoint_txids.len() <= st@.unmined_endpoint_txids.len(),
            (st@.failures.len() == pre@.failures.len()) <==> (forall|q: int|
                0 <= q < i ==> lookup_op(*c, (#[trigger] c.endpoints@[q]).0) is Some),
            (st@.warnings.len() == pre@.warnings.len()) <==> ((forall|a: int, b: int|
                0 <= a < b < i ==> #[trigger] c.endpoints@[a] != #[trigger] c.endpoints@[b]) && (
            forall|q: int|
                (0 <= q < i && lookup_op(*c, (#[trigger] c.endpoints@[q]).0) is Some)
                    ==> seal_found(lookup_op(*c, c.endpoints@[q].0)->0, c.endpoints@[q].1)) && (
            forall|q: int|
                (0 <= q < i && lookup_op(*c, (#[trigger] c.endpoints@[q]).0) is Some && (
                anchor_lookup(w@, c.endpoints@[q].0) matches Some(a))) ==> !((anchor_lookup(
                    w@,
                    c.endpoints@[q].0,
                ))->0.resolution is Unknown))),
            (st@.unmined_endpoint_txids.len() == pre@.unmined_endpoint_txids.len()) <==> (forall|
                q: int,
            |
                0 <= q < i ==> !(lookup_op(*c, (#[trigger] c.endpoints@[q]).0) is Some && (
                anchor_lookup(w@, c.endpoints@[q].0) matches Some(a)
                    && a.resolution is Unmined))),
        decreases n - i,
    {
        let e_op = c.endpoints[i].0;
        let e_seal = c.endpoints[i].1;
        proof {
            assert(c.endpoints@[i as int] == (e_op, e_seal));
        }
        let mut dup = false;
        let mut j2: usize = 0;
        while j2 < i
            invariant
                j2 <= i,
                i < n,
                n == c.endpoints@.len(),
                e_op == c.endpoints@[i as int].0,
                e_seal == c.endpoints@[i as int].1,
                dup == (exists|q2: int|
                    0 <= q2 < j2 && #[trigger] c.endpoints@[q2] == c.endpoints@[i as int]),
            decreases i - j2,
        {
            if op_id_eq(&c.endpoints[j2].0, &e_op) && seal_id_eq(&c.endpoints[j2].1, &e_seal) {
                proof {
                    assert(c.endpoints@[j2 as int] == c.endpoints@[i as int]);
                }
                dup = true;
            }
            j2 = j2 + 1;
        }
        if dup {
            st.warnings.push(Warning::EndpointDuplication(e_op, e_seal));
        }
        match find_op(c, &e_op) {
            None => {
                st.failures.push(Failure::TransitionAbsent(e_op));
            },
            Some(op) => {
                let na = op.assignments.len();
                let mut found = false;
                let mut k2: usize = 0;
                while k2 < na
                    invariant
                        k2 <= na,
                        na == op.assignments@.len(),
                        e_seal == c.endpoints@[i as int].1,
                        found == (exists|q2: int|
                            0 <= q2 < k2 && (#[trigger] op.assignments@[q2]).seal
                                == SealDecl::Confidential(e_seal)),
                    decreases na - k2,
                {
                    match &op.assignments[k2].seal {
                        SealDecl::Confidential(s) => {
                            if seal_id_eq(s, &e_seal) {
                                proof {
                                    assert(op.assignments@[k2 as int].seal
                                        == SealDecl::Confidential(e_seal));
                                }
                                found = true;
                            }
                        },
                        SealDecl::Revealed(_, _) => {},
                    }
                    k2 = k2 + 1;
                }
                if !found {
                    st.warnings.push(Warning::EndpointTransitionSealNotFound(e_op, e_seal));
                }
                match find_anchor(w, &e_op) {
                    None => {},
                    Some(a) => {
                        match a.resolution {
                            WitnessResolution::Unknown => {
                                st.warnings.push(Warning::EndpointTransactionMissed(a.txid));
                            },
                            WitnessResolution::Unmined => {
                                st.unmined_endpoint_txids.push(a.txid);
                            },
                            WitnessResolution::Mined => {},
                        }
                    },
                }
            },
        }
        proof {
            if !dup {
                if forall|a: int, b: int|
                    0 <= a < b < i ==> #[trigger] c.endpoints@[a] != #[trigger] c.endpoints@[b] {
                    assert forall|a: int, b: int|
                        0 <= a < b < i + 1 implies #[trigger] c.endpoints@[a]
                        != #[trigger] c.endpoints@[b] by {
                        if b == i {
                            if c.endpoints@[a] == c.endpoints@[i as int] {
                                assert(exists|q2: int|
                                    0 <= q2 < i && #[trigger] c.endpoints@[q2]
                                        == c.endpoints@[i as int]);
                            }
                        }
                    }
                }
            } else {
                let q2 = choose|q2: int|
                    0 <= q2 < i && #[trigger] c.endpoints@[q2] == c.endpoints@[i as int];
                assert(0 <= q2 < i + 1 && q2 < i);
                assert(c.endpoints@[q2] == c.endpoints@[i as int]);
            }
        }
        i = i + 1;
    }
}


/// Checks that every bound of one subschema map is declared by — and at
/// least as strict as — the root's map for the same operation kind.
fn check_bounds_subset(
    st: &mut Status,
    ot: OpType,
    cat: OccCategory,
    sub: &TypeMap<Occurrences>,
    root: &TypeMap<Occurrences>,
)
    requires
        root.wf(),
    ensures
        final(st)@.warnings == old(st)@.warnings,
        final(st)@.info == old(st)@.info,
        final(st)@.unresolved_txids == old(st)@.unresolved_txids,
        final(st)@.unmined_endpoint_txids == old(st)@.unmined_endpoint_txids,
        old(st)@.failures.len() <= final(st)@.failures.len(),
        forall|i: int|
            0 <= i < old(st)@.failures.len() ==> #[trigger] final(st)@.failures[i] == old(
                st,
            )@.failures[i],
        (final(st)@.failures.len() == old(st)@.failures.len()) <==> bounds_subset(
            sub.entries@,
            *root,
        ),
{
    let ghost pre = *st;
    let n = sub.entries.len();
    let mut j: usize = 0;
    while j < n
        invariant
            j <= n,
            n == sub.entries@.len(),
            pre == *old(st),
            root.wf(),
            st@.warnings == pre@.warnings,
            st@.info == pre@.info,
            st@.unresolved_txids == pre@.unresolved_txids,
            st@.unmined_endpoint_txids == pre@.unmined_endpoint_txids,
            pre@.failures.len() <= st@.failures.len(),
            forall|i2: int|
                0 <= i2 < pre@.failures.len() ==> #[trigger] st@.failures[i2] == pre@.failures[i2],
            (st@.failures.len() == pre@.failures.len()) <==> (forall|q: int|
                0 <= q < j ==> (root.spec_contains_key((#[trigger] sub.entries@[q]).0)
                    && (root.spec_contains_key(sub.entries@[q].0) ==> occ_within(
                    sub.entries@[q].1,
                    root.spec_get(sub.entries@[q].0)->0,
                )))),
        decreases n - j,
    {
        let e = &sub.entries[j];
        let ok = match root.get(e.0) {
            None => false,
            Some(rocc) => rocc.min <= e.1.min && e.1.max <= rocc.max,
        };
        if !ok {
            match cat {
                OccCategory::Global => {
                    st.failures.push(Failure::SubschemaOpGlobalStateMismatch(ot, e.0));
                },
                OccCategory::Input => {
                    st.failures.push(Failure::SubschemaOpInputMismatch(ot, e.0));
                },
                OccCategory::Assignment => {
                    st.failures.push(Failure::SubschemaOpAssignmentsMismatch(ot, e.0));
                },
            }
        }
        j = j + 1;
    }
}

/// Checks that every valency (or redeem) type one subschema set allows is
/// allowed by the root's set for the same operation kind.
fn check_set_subset(st: &mut Status, ot: OpType, redeems: bool, sub: &TypeSet, root: &TypeSet)
    ensures
        final(st)@.warnings == old(st)@.warnings,
        final(st)@.info == old(st)@.info,
        final(st)@.unresolved_txids == old(st)@.unresolved_txids,
        final(st)@.unmined_endpoint_txids == old(st)@.unmined_endpoint_txids,
        old(st)@.failures.len() <= final(st)@.failures.len(),
        forall|i: int|
            0 <= i < old(st)@.failures.len() ==> #[trigger] final(st)@.failures[i] == old(
                st,
            )@.failures[i],
        (final(st)@.failures.len() == old(st)@.failures.len()) <==> set_subset(*sub, *root),
{
    let ghost pre = *st;
    let n = sub.entries.len();
    let mut j: usize = 0;
    while j < n
        invariant
            j <= n,
            n == sub.entries@.len(),
            pre == *old(st),
            st@.warnings == pre@.warnings,
            st@.info == pre@.info,
            st@.unresolved_txids == pre@.unresolved_txids,
            st@.unmined_endpoint_txids == pre@.unmined_endpoint_txids,
            pre@.failures.len() <= st@.failures.len(),
            forall|i2: int|
                0 <= i2 < pre@.failures.len() ==> #[trigger] st@.failures[i2] == pre@.failures[i2],
            (st@.failures.len() == pre@.failures.len()) <==> (forall|q: int|
                0 <= q < j ==> root.spec_contains(#[trigger] sub.entries@[q])),
        decreases n - j,
    {
        let t = sub.entries[j];
        if !root.contains(t) {
            if redeems {
                st.failures.push(Failure::SubschemaOpRedeemMismatch(ot, t));
            } else {
                st.failures.push(Failure::SubschemaOpValencyMismatch(ot, t));
            }
        }
        j = j + 1;
    }
}

/// Bounds-level root conformance: for each operation schema shared with
/// the root, the subschema's occurrence bounds must be at least as strict.
fn check_root_bounds(st: &mut Status, schema: &SubSchema)
    requires
        sub_schema_wf(*schema),
    ensures
        final(st)@.warnings == old(st)@.warnings,
        final(st)@.info == old(st)@.info,
        final(st)@.unresolved_txids == old(st)@.unresolved_txids,
        final(st)@.unmined_endpoint_txids == old(st)@.unmined_endpoint_txids,
        old(st)@.failures.len() <= final(st)@.failures.len(),
        forall|i: int|
            0 <= i < old(st)@.failures.len() ==> #[trigger] final(st)@.failures[i] == old(
                st,
            )@.failures[i],
        (final(st)@.failures.len() == old(st)@.failures.len()) <==> root_bounds_ok(*schema),
{
    let ghost pre = *st;
    match &schema.subset_of {
        None => {},
        Some(root) => {
            proof {
                assert(root.genesis.globals.wf() && root.genesis.assignments.wf());
                assert(root.transitions.wf() && root.extensions.wf());
            }
            check_bounds_subset(
                st,
                OpType::Genesis,
                OccCategory::Global,
                &schema.genesis.globals,
                &root.genesis.globals,
            );
            check_bounds_subset(
                st,
                OpType::Genesis,
                OccCategory::Assignment,
                &schema.genesis.assignments,
                &root.genesis.assignments,
            );
            check_set_subset(
                st,
                OpType::Genesis,
                false,
                &schema.genesis.valencies,
                &root.genesis.valencies,
            );
            let ghost m1 = *st;
            let n = schema.transitions.entries.len();
            let mut j: usize = 0;
            while j < n
                invariant
                    j <= n,
                    n == schema.transitions.entries@.len(),
                    sub_schema_wf(*schema),
                    schema.subset_of matches Some(r) && r == *root,
                    st@.warnings == m1@.warnings,
                    st@.info == m1@.info,
                    st@.unresolved_txids == m1@.unresolved_txids,
                    st@.unmined_endpoint_txids == m1@.unmined_endpoint_txids,
                    m1@.failures.len() <= st@.failures.len(),
            forall|i2: int|
                0 <= i2 < m1@.failures.len() ==> #[trigger] st@.failures[i2]
                    == m1@.failures[i2],
                    (st@.failures.len() == m1@.failures.len()) <==> (forall|q: int|
                        (0 <= q < j && root.transitions.spec_contains_key(
                            (#[trigger] schema.transitions.entries@[q]).0,
                        )) ==> transition_subset(
                            schema.transitions.entries@[q].1,
                            root.transitions.spec_get(schema.transitions.entries@[q].0)->0,
                        )),
                decreases n - j,
            {
                let e = &schema.transitions.entries[j];
                match root.transitions.get(e.0) {
                    None => {},
                    Some(rts) => {
                        proof {
                            let w = choose|w: int|
                                0 <= w < root.transitions.entries@.len() && (
                                #[trigger] root.transitions.entries@[w]).0 == e.0;
                            assert(root.transitions.entries@[w].1.enc_wf());
                            assert(rts.globals.wf() && rts.inputs.wf() && rts.assignments.wf());
                        }
                        check_bounds_subset(
                            st,
                            OpType::StateTransition,
                            OccCategory::Global,
                            &e.1.globals,
                            &rts.globals,
                        );
                        check_bounds_subset(
                            st,
                            OpType::StateTransition,
                            OccCategory::Input,
                            &e.1.inputs,
                            &rts.inputs,
                        );
                        check_bounds_subset(
                            st,
                            OpType::StateTransition,
                            OccCategory::Assignment,
                            &e.1.assignments,
                            &rts.assignments,
                        );
                        check_set_subset(
                            st,
                            OpType::StateTransition,
                            false,
                            &e.1.valencies,
                            &rts.valencies,
                        );
                    },
                }
                j = j + 1;
            }
            let ghost m2 = *st;
            let n2 = schema.extensions.entries.len();
            let mut j: usize = 0;
            while j < n2
                invariant
                    j <= n2,
                    n2 == schema.extensions.entries@.len(),
                    sub_schema_wf(*schema),
                    schema.subset_of matches Some(r) && r == *root,
                    st@.warnings == m2@.warnings,
                    st@.info == m2@.info,
                    st@.unresolved_txids == m2@.unresolved_txids,
                    st@.unmined_endpoint_txids == m2@.unmined_endpoint_txids,
                    m2@.failures.len() <= st@.failures.len(),
            forall|i2: int|
                0 <= i2 < m2@.failures.len() ==> #[trigger] st@.failures[i2]
                    == m2@.failures[i2],
                    (st@.failures.len() == m2@.failures.len()) <==> (forall|q: int|
                        (0 <= q < j && root.extensions.spec_contains_key(
                            (#[trigger] schema.extensions.entries@[q]).0,
                        )) ==> extension_subset(
                            schema.extensions.entries@[q].1,
                            root.extensions.spec_get(schema.extensions.entries@[q].0)->0,
                        )),
                decreases n2 - j,
            {
                let e = &schema.extensions.entries[j];
                match root.extensions.get(e.0) {
                    None => {},
                    Some(res) => {
                        proof {
                            let w = choose|w: int|
                                0 <= w < root.extensions.entries@.len() && (
                                #[trigger] root.extensions.entries@[w]).0 == e.0;
                            assert(root.extensions.entries@[w].1.enc_wf());
                            assert(res.globals.wf() && res.redeems.wf() && res.assignments.wf());
                        }
                        check_bounds_subset(
                            st,
                            OpType::StateExtension,
                            OccCategory::Global,
                            &e.1.globals,
                            &res.globals,
                        );
                        check_set_subset(st, OpType::StateExtension, true, &e.1.redeems, &res.redeems);
                        check_bounds_subset(
                            st,
                            OpType::StateExtension,
                            OccCategory::Assignment,
                            &e.1.assignments,
                            &res.assignments,
                        );
                        check_set_subset(
                            st,
                            OpType::StateExtension,
                            false,
                            &e.1.valencies,
                            &res.valencies,
                        );
                    },
                }
                j = j + 1;
            }
        },
    }
}


/// Whether `op` references the operation with the given id.
fn references_exec(op: &Operation, id: &OpId) -> (r: bool)
    ensures
        r == references(*op, *id),
{
    let n = op.inputs.len();
    let mut k: usize = 0;
    while k < n
        invariant
            k <= n,
            n == op.inputs@.len(),
            forall|q: int| 0 <= q < k ==> (#[trigger] op.inputs@[q]).op != *id,
        decreases n - k,
    {
        if op_id_eq(&op.inputs[k].op, id) {
            return true;
        }
        k = k + 1;
    }
    let n2 = op.redeemed.len();
    let mut k: usize = 0;
    while k < n2
        invariant
            k <= n2,
            n2 == op.redeemed@.len(),
            forall|q: int| 0 <= q < n ==> (#[trigger] op.inputs@[q]).op != *id,
            n == op.inputs@.len(),
            forall|q: int| 0 <= q < k ==> (#[trigger] op.redeemed@[q]).1 != *id,
        decreases n2 - k,
    {
        if op_id_eq(&op.redeemed[k].1, id) {
            return true;
        }
        k = k + 1;
    }
    false
}

/// Marks the operations connected to the genesis: after round `r` the
/// marks hold exactly the operations connected within `r` steps, and as
/// many rounds as there are operations saturate the relation.
fn reach_marks(c: &Consignment) -> (r: Vec<bool>)
    requires
        c.operations@.len() < usize::MAX,
    ensures
        r@.len() == c.operations@.len(),
        forall|j: int| 0 <= j < c.operations@.len() ==> r@[j] == connected(*c, j),
{
    let n = c.operations.len();
    let mut marks: Vec<bool> = Vec::new();
    let mut i: usize = 0;
    while i < n
        invariant
            i <= n,
            marks@.len() == i,
            forall|q: int| 0 <= q < i ==> !(#[trigger] marks@[q]),
        decreases n - i,
    {
        marks.push(false);
        i = i + 1;
    }
    let mut round: usize = 0;
    while round <= n
        invariant
            round <= n + 1,
            n < usize::MAX,
            n == c.operations@.len(),
            marks@.len() == n,
            round == 0 ==> forall|q: int| 0 <= q < n ==> !(#[trigger] marks@[q]),
            round > 0 ==> forall|q: int|
                0 <= q < n ==> #[trigger] marks@[q] == connected_within(
                    *c,
                    q,
                    (round - 1) as nat,
                ),
        decreases n + 1 - round,
    {
        let mut next: Vec<bool> = Vec::new();
        let mut j: usize = 0;
        while j < n
            invariant
                j <= n,
                round <= n,
                n == c.operations@.len(),
                marks@.len() == n,
                next@.len() == j,
                round == 0 ==> forall|q: int| 0 <= q < n ==> !(#[trigger] marks@[q]),
                round > 0 ==> forall|q: int|
                    0 <= q < n ==> #[trigger] marks@[q] == connected_within(
                        *c,
                        q,
                        (round - 1) as nat,
                    ),
                forall|q: int|
                    0 <= q < j ==> #[trigger] next@[q] == connected_within(*c, q, round as nat),
            decreases n - j,
        {
            let op = &c.operations[j];
            let g = references_exec(op, &c.genesis.id);
            let mut hit = g;
            if round > 0 {
                let mut j2: usize = 0;
                while j2 < n
                    invariant
                        j2 <= n,
                        j < n,
                        n == c.operations@.len(),
                        marks@.len() == n,
                        op == &c.operations@[j as int],
                        g == references(c.operations@[j as int], c.genesis.id),
                        hit == (g || exists|q2: int|
                            0 <= q2 < j2 && marks@[q2] && references(
                                c.operations@[j as int],
                                (#[trigger] c.operations@[q2]).id,
                            )),
                    decreases n - j2,
                {
                    if marks[j2] {
                        if references_exec(op, &c.operations[j2].id) {
                            proof {
                                assert(marks@[j2 as int] && references(
                                    c.operations@[j as int],
                                    c.operations@[j2 as int].id,
                                ));
                            }
                            hit = true;
                        }
                    }
                    j2 = j2 + 1;
                }
            }
            proof {
                if round == 0 {
                    assert(connected_within(*c, j as int, 0nat) == g);
                } else {
                    let r1 = (round - 1) as nat;
                    if hit && !g {
                        let w = choose|q2: int|
                            0 <= q2 < n && marks@[q2] && references(
                                c.operations@[j as int],
                                (#[trigger] c.operations@[q2]).id,
                            );
                        assert(connected_within(*c, w, r1));
                        assert(connected_within(*c, j as int, round as nat));
                    }
                    if connected_within(*c, j as int, round as nat) && !g {
                        let w = choose|j2: int|
                            0 <= j2 < c.operations@.len() && references(
                                c.operations@[j as int],
                                (#[trigger] c.operations@[j2]).id,
                            ) && connected_within(*c, j2, r1);
                        assert(marks@[w]);
                        assert(hit);
                    }
                    assert(hit == connected_within(*c, j as int, round as nat));
                }
            }
            next.push(hit);
            j = j + 1;
        }
        marks = next;
        round = round + 1;
    }
    marks
}

/// Warns of every operation the reference graph does not connect to the
/// genesis.
fn check_connectivity(st: &mut Status, c: &Consignment)
    requires
        c.operations@.len() < usize::MAX,
    ensures
        final(st)@.failures == old(st)@.failures,
        final(st)@.info == old(st)@.info,
        final(st)@.unresolved_txids == old(st)@.unresolved_txids,
        final(st)@.unmined_endpoint_txids == old(st)@.unmined_endpoint_txids,
        old(st)@.warnings.len() <= final(st)@.warnings.len(),
        (final(st)@.warnings.len() == old(st)@.warnings.len()) <==> all_connected(*c),
{
    let ghost pre = *st;
    let marks = reach_marks(c);
    let n = c.operations.len();
    let mut j: usize = 0;
    while j < n
        invariant
            j <= n,
            n == c.operations@.len(),
            marks@.len() == n,
            forall|q: int| 0 <= q < n ==> #[trigger] marks@[q] == connected(*c, q),
            st@.failures == pre@.failures,
            st@.info == pre@.info,
            st@.unresolved_txids == pre@.unresolved_txids,
            st@.unmined_endpoint_txids == pre@.unmined_endpoint_txids,
            pre@.warnings.len() <= st@.warnings.len(),
            (st@.warnings.len() == pre@.warnings.len()) <==> (forall|q: int|
                0 <= q < j ==> connected(*c, q)),
        decreases n - j,
    {
        if !marks[j] {
            st.warnings.push(Warning::ExcessiveNode(c.operations[j].id));
        }
        j = j + 1;
    }
}

/// Folds the script engine's verdicts into the status.
fn check_scripts_all(st: &mut Status, scripts: &Vec<ScriptVerdict>)
    ensures
        final(st)@.warnings == old(st)@.warnings,
        final(st)@.info == old(st)@.info,
        final(st)@.unresolved_txids == old(st)@.unresolved_txids,
        final(st)@.unmined_endpoint_txids == old(st)@.unmined_endpoint_txids,
        old(st)@.failures.len() <= final(st)@.failures.len(),
        forall|i: int|
            0 <= i < old(st)@.failures.len() ==> #[trigger] final(st)@.failures[i] == old(
                st,
            )@.failures[i],
        (final(st)@.failures.len() == old(st)@.failures.len()) <==> scripts_ok(scripts@),
{
    let ghost pre = *st;
    let n = scripts.len();
    let mut i: usize = 0;
    while i < n
        invariant
            i <= n,
            n == scripts@.len(),
            pre == *old(st),
            st@.warnings == pre@.warnings,
            st@.info == pre@.info,
            st@.unresolved_txids == pre@.unresolved_txids,
            st@.unmined_endpoint_txids == pre@.unmined_endpoint_txids,
            pre@.failures.len() <= st@.failures.len(),
            forall|i2: int|
                0 <= i2 < pre@.failures.len() ==> #[trigger] st@.failures[i2] == pre@.failures[i2],
            (st@.failures.len() == pre@.failures.len()) <==> (forall|q: int|
                0 <= q < i ==> (#[trigger] scripts@[q]).error is None),
        decreases n - i,
    {
        match &scripts[i].error {
            Some(e) => {
                st.failures.push(Failure::ScriptFailure(scripts[i].opid, e.clone()));
            },
            None => {},
        }
        i = i + 1;
    }
}

/// Validates a consignment against a schema, given the externally computed
/// witness-transaction and script verdicts.
///
/// The declared schema id must match the id of the schema supplied;
/// otherwise the run short-circuits with a single schema-mismatch failure,
/// since no further check is meaningful without agreement on the rule set.
/// Past that gate the engine never aborts: it reports the complete set of
/// problems in one pass. Failures are recorded exactly when conformance is
/// violated; an unresolvable witness transaction is recorded both as a
/// failure and as an unresolved transaction id, which weakens the verdict
/// to "unresolved" rather than "invalid"; an endpoint whose closing
/// transaction is merely unmined is recorded separately and never fails
/// the run; endpoint anomalies surface as warnings.
pub fn validate(
    c: &Consignment,
    schema: &SubSchema,
    witness: &Vec<AnchorCheck>,
    scripts: &Vec<ScriptVerdict>,
) -> (r: Status)
    requires
        sub_schema_wf(*schema),
        consignment_wf(*c),
    ensures
        c.schema_id.0@ != spec_sub_schema_id(*schema) ==> (r@.failures.len() == 1 && (
        r@.failures[0] matches Failure::SchemaMismatch { expected, actual } && expected
            == c.schema_id && actual.0@ == spec_sub_schema_id(*schema)) && r@.warnings.len() == 0
            && r@.info.len() == 0 && r@.unresolved_txids.len() == 0
            && r@.unmined_endpoint_txids.len() == 0),
        c.schema_id.0@ == spec_sub_schema_id(*schema) ==> ((r@.failures.len() == 0 <==> conforms(
            *c,
            *schema,
            witness@,
            scripts@,
        )) && (r@.unresolved_txids.len() == 0 <==> !has_unresolved(*c, witness@)) && (
        r@.unmined_endpoint_txids.len() == 0 <==> !has_unmined_endpoint(*c, witness@)) && (
        r@.warnings.len() == 0 <==> (endpoint_warnings_none(*c, witness@) && all_connected(*c)))
            && r@.info.len() == 0),
        c.schema_id.0@ == spec_sub_schema_id(*schema) ==> (forall|q: int|
            0 <= q < c.genesis.globals@.len() && !(schema.global_types.spec_contains_key(
                #[trigger] c.genesis.globals@[q],
            ) && seq_has_key(schema.genesis.globals.entries@, c.genesis.globals@[q]))
                ==> r@.failures.contains(
                Failure::SchemaUnknownGlobalStateType(c.genesis.id, c.genesis.globals@[q]),
            )),
        c.schema_id.0@ == spec_sub_schema_id(*schema) ==> (forall|q: int, k2: int|
            0 <= q < c.operations@.len() && 0 <= k2 < c.operations@[q].inputs@.len() && (
            lookup_op(*c, (#[trigger] c.operations@[q].inputs@[k2]).op) is None)
                ==> r@.failures.contains(
                Failure::OperationAbsent(c.operations@[q].inputs@[k2].op),
            )),
        c.schema_id.0@ == spec_sub_schema_id(*schema) ==> (forall|q: int|
            0 <= q < c.operations@.len() && (#[trigger] c.operations@[q]).op_type
                is StateTransition && (anchor_lookup(witness@, c.operations@[q].id) matches Some(a)
                && a.resolution is Unknown) ==> (r@.failures.contains(
                Failure::SealNoWitnessTx((anchor_lookup(witness@, c.operations@[q].id))->0.txid),
            ) && r@.unresolved_txids.contains(
                (anchor_lookup(witness@, c.operations@[q].id))->0.txid,
            ))),
{
    let sid = schema.schema_id();
    if !bytes32_eq(&c.schema_id.0, &sid.0) {
        proof {
            assert(c.schema_id.0@ != sid.0@);
        }
        return Status::from_error(Failure::SchemaMismatch { expected: c.schema_id, actual: sid });
    }
    proof {
        assert(c.schema_id.0@ =~= sid.0@);
    }
    let mut st = Status::new();
    check_root(&mut st, schema);
    check_root_bounds(&mut st, schema);
    check_ops_all(&mut st, schema, c);
    let ghost g1 = st;
    check_graph_all(&mut st, c);
    check_connectivity(&mut st, c);
    let ghost g2 = st;
    check_anchors_all(&mut st, c, witness);
    let ghost g3 = st;
    check_endpoints_all(&mut st, c, witness);
    check_scripts_all(&mut st, scripts);
    proof {
        assert forall|q: int|
            0 <= q < c.genesis.globals@.len() && !(schema.global_types.spec_contains_key(
                #[trigger] c.genesis.globals@[q],
            ) && seq_has_key(
                schema.genesis.globals.entries@,
                c.genesis.globals@[q],
            )) implies st@.failures.contains(
            Failure::SchemaUnknownGlobalStateType(c.genesis.id, c.genesis.globals@[q]),
        ) by {
            lemma_frame_contains(
                g1@.failures,
                st@.failures,
                Failure::SchemaUnknownGlobalStateType(c.genesis.id, c.genesis.globals@[q]),
            );
        }
        assert forall|q: int, k2: int|
            0 <= q < c.operations@.len() && 0 <= k2 < c.operations@[q].inputs@.len() && (
            lookup_op(*c, (#[trigger] c.operations@[q].inputs@[k2]).op)
                is None) implies st@.failures.contains(
            Failure::OperationAbsent(c.operations@[q].inputs@[k2].op),
        ) by {
            lemma_frame_contains(
                g2@.failures,
                st@.failures,
                Failure::OperationAbsent(c.operations@[q].inputs@[k2].op),
            );
        }
        assert forall|q: int|
            0 <= q < c.operations@.len() && (#[trigger] c.operations@[q]).op_type
                is StateTransition && (anchor_lookup(witness@, c.operations@[q].id) matches Some(a)
                && a.resolution is Unknown) implies (st@.failures.contains(
            Failure::SealNoWitnessTx((anchor_lookup(witness@, c.operations@[q].id))->0.txid),
        ) && st@.unresolved_txids.contains(
            (anchor_lookup(witness@, c.operations@[q].id))->0.txid,
        )) by {
            lemma_frame_contains(
                g3@.failures,
                st@.failures,
                Failure::SealNoWitnessTx((anchor_lookup(witness@, c.operations@[q].id))->0.txid),
            );
        }
    }
    st
}

} // verus!
