use rgb_core::schema::{
    GenesisSchema, GlobalStateSchema, Schema, StateSchema, SubSchema, TransitionSchema, TypeMap,
    TypeSet,
};
use rgb_core::status::{Failure, Validity, Warning};
use rgb_core::types::{Occurrences, OpId, Opout, SecretSeal, SemId, Txid};
use rgb_core::validation::{
    validate, AnchorCheck, AssignedState, Assignment, Consignment, Operation, ScriptVerdict,
    SealDecl, WitnessResolution,
};

const GLOBAL_TY: u16 = 1;
const OWNED_TY: u16 = 2;
const TRANSITION_TY: u16 = 10;

fn test_schema() -> SubSchema {
    let mut globals: TypeMap<GlobalStateSchema> = TypeMap::new();
    globals.insert(GLOBAL_TY, GlobalStateSchema { sem_id: SemId([1u8; 32]), max_items: 4 });
    let mut owned: TypeMap<StateSchema> = TypeMap::new();
    owned.insert(OWNED_TY, StateSchema::Declarative);
    let mut gen_globals: TypeMap<Occurrences> = TypeMap::new();
    gen_globals.insert(GLOBAL_TY, Occurrences { min: 0, max: 2 });
    let mut gen_assignments: TypeMap<Occurrences> = TypeMap::new();
    gen_assignments.insert(OWNED_TY, Occurrences { min: 0, max: 2 });
    let genesis = GenesisSchema {
        globals: gen_globals,
        assignments: gen_assignments,
        valencies: TypeSet::new(),
    };
    let mut ts_inputs: TypeMap<Occurrences> = TypeMap::new();
    ts_inputs.insert(OWNED_TY, Occurrences { min: 1, max: 1 });
    let mut ts_assignments: TypeMap<Occurrences> = TypeMap::new();
    ts_assignments.insert(OWNED_TY, Occurrences { min: 0, max: 2 });
    let ts = TransitionSchema {
        globals: TypeMap::new(),
        inputs: ts_inputs,
        assignments: ts_assignments,
        valencies: TypeSet::new(),
    };
    let mut transitions: TypeMap<TransitionSchema> = TypeMap::new();
    transitions.insert(TRANSITION_TY, ts);
    Schema {
        ffv: 0,
        subset_of: None,
        global_types: globals,
        owned_types: owned,
        valency_types: TypeSet::new(),
        genesis,
        extensions: TypeMap::new(),
        transitions,
        type_system: vec![],
        script: vec![],
    }
}

fn genesis_op(globals: Vec<u16>) -> Operation {
    Operation {
        id: OpId([1u8; 32]),
        op_type: rgb_core::types::OpType::Genesis,
        ty: 0,
        globals,
        assignments: vec![Assignment {
            ty: OWNED_TY,
            seal: SealDecl::Revealed(Txid([4u8; 32]), 0),
            state: AssignedState::Declarative,
        }],
        valencies: vec![],
        inputs: vec![],
        redeemed: vec![],
    }
}

fn transition_op(prev: OpId) -> Operation {
    Operation {
        id: OpId([2u8; 32]),
        op_type: rgb_core::types::OpType::StateTransition,
        ty: TRANSITION_TY,
        globals: vec![],
        assignments: vec![
            Assignment {
                ty: OWNED_TY,
                seal: SealDecl::Revealed(Txid([5u8; 32]), 0),
                state: AssignedState::Declarative,
            },
            Assignment {
                ty: OWNED_TY,
                seal: SealDecl::Confidential(SecretSeal([7u8; 32])),
                state: AssignedState::Declarative,
            },
        ],
        valencies: vec![],
        inputs: vec![Opout { op: prev, ty: OWNED_TY, no: 0 }],
        redeemed: vec![],
    }
}

fn good_anchor(op: &Operation, resolution: WitnessResolution) -> AnchorCheck {
    AnchorCheck {
        opid: op.id,
        txid: Txid([6u8; 32]),
        in_anchor: true,
        mpc_proof_valid: true,
        resolution,
        seal_error: None,
        anchor_error: None,
    }
}

#[test]
fn unknown_global_state_type_in_genesis() {
    let schema = test_schema();
    let c = Consignment {
        schema_id: schema.schema_id(),
        genesis: genesis_op(vec![7]),
        operations: vec![],
        endpoints: vec![],
    };
    let st = validate(&c, &schema, &vec![], &vec![]);
    assert_eq!(st.failures, vec![Failure::SchemaUnknownGlobalStateType(OpId([1u8; 32]), 7)]);
    assert!(st.warnings.is_empty());
    assert_eq!(st.validity(), Validity::Invalid);
}

#[test]
fn transition_referencing_absent_operation() {
    let schema = test_schema();
    let genesis = genesis_op(vec![GLOBAL_TY]);
    let t = transition_op(OpId([9u8; 32]));
    let anchors = vec![good_anchor(&t, WitnessResolution::Mined)];
    let c = Consignment {
        schema_id: schema.schema_id(),
        genesis,
        operations: vec![t],
        endpoints: vec![],
    };
    let st = validate(&c, &schema, &anchors, &vec![]);
    assert_eq!(st.failures, vec![Failure::OperationAbsent(OpId([9u8; 32]))]);
    assert_eq!(st.validity(), Validity::Invalid);
}

#[test]
fn unresolved_witness_transaction() {
    let schema = test_schema();
    let genesis = genesis_op(vec![GLOBAL_TY]);
    let t = transition_op(genesis.id);
    let anchors = vec![good_anchor(&t, WitnessResolution::Unknown)];
    let c = Consignment {
        schema_id: schema.schema_id(),
        genesis,
        operations: vec![t],
        endpoints: vec![],
    };
    let st = validate(&c, &schema, &anchors, &vec![]);
    assert_eq!(st.failures, vec![Failure::SealNoWitnessTx(Txid([6u8; 32]))]);
    assert_eq!(st.unresolved_txids, vec![Txid([6u8; 32])]);
    assert_eq!(st.validity(), Validity::UnresolvedTransactions);
}

#[test]
fn fully_conformant_chain_is_valid() {
    let schema = test_schema();
    let genesis = genesis_op(vec![GLOBAL_TY]);
    let t = transition_op(genesis.id);
    let anchors = vec![good_anchor(&t, WitnessResolution::Mined)];
    let c = Consignment {
        schema_id: schema.schema_id(),
        genesis,
        operations: vec![t],
        endpoints: vec![],
    };
    let st = validate(&c, &schema, &anchors, &vec![]);
    assert!(st.failures.is_empty());
    assert!(st.warnings.is_empty());
    assert_eq!(st.validity(), Validity::Valid);
}

#[test]
fn unmined_endpoint_transaction() {
    let schema = test_schema();
    let genesis = genesis_op(vec![GLOBAL_TY]);
    let t = transition_op(genesis.id);
    let tid = t.id;
    let anchors = vec![good_anchor(&t, WitnessResolution::Unmined)];
    let c = Consignment {
        schema_id: schema.schema_id(),
        genesis,
        operations: vec![t],
        endpoints: vec![(tid, SecretSeal([7u8; 32]))],
    };
    let st = validate(&c, &schema, &anchors, &vec![]);
    assert!(st.failures.is_empty());
    assert!(st.warnings.is_empty());
    assert_eq!(st.unmined_endpoint_txids, vec![Txid([6u8; 32])]);
    assert_eq!(st.validity(), Validity::ValidExceptEndpoints);
}

#[test]
fn schema_mismatch_short_circuits() {
    let schema = test_schema();
    let c = Consignment {
        schema_id: rgb_core::schema_id::SchemaId([0xAAu8; 32]),
        genesis: genesis_op(vec![7]),
        operations: vec![],
        endpoints: vec![],
    };
    let st = validate(&c, &schema, &vec![], &vec![]);
    assert_eq!(st.failures.len(), 1);
    assert!(matches!(
        &st.failures[0],
        Failure::SchemaMismatch { expected, actual }
            if *expected == c.schema_id && *actual == schema.schema_id()
    ));
    assert_eq!(st.validity(), Validity::Invalid);
}

#[test]
fn script_rejection_is_a_failure() {
    let schema = test_schema();
    let genesis = genesis_op(vec![GLOBAL_TY]);
    let gid = genesis.id;
    let c = Consignment {
        schema_id: schema.schema_id(),
        genesis,
        operations: vec![],
        endpoints: vec![],
    };
    let scripts = vec![ScriptVerdict { opid: gid, error: Some(String::from("constraint broken")) }];
    let st = validate(&c, &schema, &vec![], &scripts);
    assert_eq!(st.failures, vec![Failure::ScriptFailure(gid, String::from("constraint broken"))]);
    assert_eq!(st.validity(), Validity::Invalid);
}

#[test]
fn occurrence_violation_is_reported() {
    let schema = test_schema();
    // three global entries of a type bounded to at most two
    let c = Consignment {
        schema_id: schema.schema_id(),
        genesis: genesis_op(vec![GLOBAL_TY, GLOBAL_TY, GLOBAL_TY]),
        operations: vec![],
        endpoints: vec![],
    };
    let st = validate(&c, &schema, &vec![], &vec![]);
    assert_eq!(st.failures.len(), 1);
    assert!(matches!(
        &st.failures[0],
        Failure::SchemaGlobalStateOccurrences(_, ty, mm)
            if *ty == GLOBAL_TY && mm.found == 3 && mm.max == 2
    ));
    assert_eq!(st.validity(), Validity::Invalid);
}

#[test]
fn duplicate_endpoint_is_a_warning() {
    let schema = test_schema();
    let genesis = genesis_op(vec![GLOBAL_TY]);
    let t = transition_op(genesis.id);
    let tid = t.id;
    let anchors = vec![good_anchor(&t, WitnessResolution::Mined)];
    let seal = SecretSeal([7u8; 32]);
    let c = Consignment {
        schema_id: schema.schema_id(),
        genesis,
        operations: vec![t],
        endpoints: vec![(tid, seal), (tid, seal)],
    };
    let st = validate(&c, &schema, &anchors, &vec![]);
    assert!(st.failures.is_empty());
    assert_eq!(st.warnings, vec![Warning::EndpointDuplication(tid, seal)]);
    assert_eq!(st.validity(), Validity::Valid);
}

#[test]
fn unanchored_transition_fails() {
    let schema = test_schema();
    let genesis = genesis_op(vec![GLOBAL_TY]);
    let t = transition_op(genesis.id);
    let tid = t.id;
    let c = Consignment {
        schema_id: schema.schema_id(),
        genesis,
        operations: vec![t],
        endpoints: vec![],
    };
    let st = validate(&c, &schema, &vec![], &vec![]);
    assert_eq!(st.failures, vec![Failure::NotAnchored(tid)]);
    assert_eq!(st.validity(), Validity::Invalid);
}

#[test]
fn missing_previous_output_fails() {
    let schema = test_schema();
    let genesis = genesis_op(vec![GLOBAL_TY]);
    let mut t = transition_op(genesis.id);
    // reference an output index the genesis does not have
    t.inputs = vec![Opout { op: genesis.id, ty: OWNED_TY, no: 5 }];
    let tid = t.id;
    let bad = t.inputs[0];
    let anchors = vec![good_anchor(&t, WitnessResolution::Mined)];
    let c = Consignment {
        schema_id: schema.schema_id(),
        genesis,
        operations: vec![t],
        endpoints: vec![],
    };
    let st = validate(&c, &schema, &anchors, &vec![]);
    assert_eq!(st.failures, vec![Failure::NoPrevOut(tid, bad)]);
    assert_eq!(st.validity(), Validity::Invalid);
}

#[test]
fn missing_previous_state_type_fails() {
    let schema = test_schema();
    let genesis = genesis_op(vec![GLOBAL_TY]);
    let mut t = transition_op(genesis.id);
    // reference a state type the genesis never assigned
    t.inputs = vec![Opout { op: genesis.id, ty: 99, no: 0 }];
    let anchors = vec![good_anchor(&t, WitnessResolution::Mined)];
    let c = Consignment {
        schema_id: schema.schema_id(),
        genesis,
        operations: vec![t],
        endpoints: vec![],
    };
    let st = validate(&c, &schema, &anchors, &vec![]);
    assert!(st.failures.iter().any(|f| matches!(
        f,
        Failure::NoPrevState { state_type, .. } if *state_type == 99
    )));
    assert_eq!(st.validity(), Validity::Invalid);
}

const VALENCY_TY: u16 = 4;
const EXTENSION_TY: u16 = 20;

fn valency_schema() -> SubSchema {
    let mut schema = test_schema();
    schema.valency_types.insert(VALENCY_TY);
    schema.genesis.valencies.insert(VALENCY_TY);
    let mut redeems = rgb_core::schema::TypeSet::new();
    redeems.insert(VALENCY_TY);
    let mut es_assignments: TypeMap<Occurrences> = TypeMap::new();
    es_assignments.insert(OWNED_TY, Occurrences { min: 0, max: 2 });
    let es = rgb_core::schema::ExtensionSchema {
        globals: TypeMap::new(),
        redeems,
        assignments: es_assignments,
        valencies: rgb_core::schema::TypeSet::new(),
    };
    schema.extensions.insert(EXTENSION_TY, es);
    schema
}

fn extension_op(parent: OpId) -> Operation {
    Operation {
        id: OpId([3u8; 32]),
        op_type: rgb_core::types::OpType::StateExtension,
        ty: EXTENSION_TY,
        globals: vec![],
        assignments: vec![],
        valencies: vec![],
        inputs: vec![],
        redeemed: vec![(VALENCY_TY, parent)],
    }
}

#[test]
fn extension_redeeming_exposed_valency_is_valid() {
    let schema = valency_schema();
    let mut genesis = genesis_op(vec![GLOBAL_TY]);
    genesis.valencies = vec![VALENCY_TY];
    let e = extension_op(genesis.id);
    let c = Consignment {
        schema_id: schema.schema_id(),
        genesis,
        operations: vec![e],
        endpoints: vec![],
    };
    let st = validate(&c, &schema, &vec![], &vec![]);
    assert!(st.failures.is_empty());
    assert_eq!(st.validity(), Validity::Valid);
}

#[test]
fn extension_redeeming_unexposed_valency_fails() {
    let schema = valency_schema();
    // the genesis does not expose the valency this time
    let genesis = genesis_op(vec![GLOBAL_TY]);
    let gid = genesis.id;
    let e = extension_op(gid);
    let eid = e.id;
    let c = Consignment {
        schema_id: schema.schema_id(),
        genesis,
        operations: vec![e],
        endpoints: vec![],
    };
    let st = validate(&c, &schema, &vec![], &vec![]);
    assert_eq!(
        st.failures,
        vec![Failure::NoPrevValency { opid: eid, prev_id: gid, valency: VALENCY_TY }]
    );
    assert_eq!(st.validity(), Validity::Invalid);
}

#[test]
fn extension_redeeming_missing_parent_fails() {
    let schema = valency_schema();
    let genesis = genesis_op(vec![GLOBAL_TY]);
    let e = extension_op(OpId([8u8; 32]));
    let eid = e.id;
    let c = Consignment {
        schema_id: schema.schema_id(),
        genesis,
        operations: vec![e],
        endpoints: vec![],
    };
    let st = validate(&c, &schema, &vec![], &vec![]);
    assert_eq!(
        st.failures,
        vec![Failure::ValencyNoParent { opid: eid, prev_id: OpId([8u8; 32]), valency: VALENCY_TY }]
    );
    assert_eq!(st.validity(), Validity::Invalid);
}

#[test]
fn state_kind_mismatch_is_reported() {
    let schema = test_schema();
    let mut genesis = genesis_op(vec![GLOBAL_TY]);
    // the schema declares this type declarative; carry fungible state
    genesis.assignments = vec![Assignment {
        ty: OWNED_TY,
        seal: SealDecl::Revealed(Txid([4u8; 32]), 0),
        state: AssignedState::Fungible(rgb_core::types::FungibleType::Unsigned64Bit),
    }];
    let gid = genesis.id;
    let c = Consignment {
        schema_id: schema.schema_id(),
        genesis,
        operations: vec![],
        endpoints: vec![],
    };
    let st = validate(&c, &schema, &vec![], &vec![]);
    assert_eq!(st.failures.len(), 1);
    assert!(matches!(
        &st.failures[0],
        Failure::StateTypeMismatch { opid, expected, found, .. }
            if *opid == gid
                && *expected == rgb_core::types::StateType::Declarative
                && *found == rgb_core::types::StateType::Fungible
    ));
    assert_eq!(st.validity(), Validity::Invalid);
}

#[test]
fn blank_transition_closes_unused_seals() {
    let schema = test_schema();
    let genesis = genesis_op(vec![GLOBAL_TY]);
    let mut t = transition_op(genesis.id);
    t.ty = rgb_core::types::BLANK_TRANSITION_ID;
    let anchors = vec![good_anchor(&t, WitnessResolution::Mined)];
    let c = Consignment {
        schema_id: schema.schema_id(),
        genesis,
        operations: vec![t],
        endpoints: vec![],
    };
    let st = validate(&c, &schema, &anchors, &vec![]);
    assert!(st.failures.is_empty());
    assert_eq!(st.validity(), Validity::Valid);
}

fn rooted_schema() -> SubSchema {
    // the root is the same catalog as the test schema
    let base = test_schema();
    let root = rgb_core::schema::RootSchema {
        ffv: base.ffv,
        subset_of: None,
        global_types: base.global_types.clone(),
        owned_types: base.owned_types.clone(),
        valency_types: base.valency_types.clone(),
        genesis: base.genesis.clone(),
        extensions: base.extensions.clone(),
        transitions: base.transitions.clone(),
        type_system: base.type_system.clone(),
        script: base.script.clone(),
    };
    let mut schema = test_schema();
    schema.subset_of = Some(root);
    schema
}

#[test]
fn conformant_subschema_over_root_is_valid() {
    let schema = rooted_schema();
    let genesis = genesis_op(vec![GLOBAL_TY]);
    let c = Consignment {
        schema_id: schema.schema_id(),
        genesis,
        operations: vec![],
        endpoints: vec![],
    };
    let st = validate(&c, &schema, &vec![], &vec![]);
    assert!(st.failures.is_empty());
    assert_eq!(st.validity(), Validity::Valid);
}

#[test]
fn subschema_type_absent_from_root_fails() {
    let mut schema = rooted_schema();
    // declare a global type the root does not have
    schema
        .global_types
        .insert(30, GlobalStateSchema { sem_id: SemId([2u8; 32]), max_items: 1 });
    let genesis = genesis_op(vec![GLOBAL_TY]);
    let c = Consignment {
        schema_id: schema.schema_id(),
        genesis,
        operations: vec![],
        endpoints: vec![],
    };
    let st = validate(&c, &schema, &vec![], &vec![]);
    assert_eq!(st.failures, vec![Failure::SubschemaGlobalStateMismatch(30)]);
    assert_eq!(st.validity(), Validity::Invalid);
}

#[test]
fn subschema_looser_bound_than_root_fails() {
    let mut schema = rooted_schema();
    // loosen the transition input bound beyond the root's (1, 1)
    let ts = schema.transitions.get(TRANSITION_TY).unwrap().clone();
    let mut loose = ts;
    loose.inputs.insert(OWNED_TY, Occurrences { min: 0, max: 3 });
    schema.transitions.insert(TRANSITION_TY, loose);
    let genesis = genesis_op(vec![GLOBAL_TY]);
    let c = Consignment {
        schema_id: schema.schema_id(),
        genesis,
        operations: vec![],
        endpoints: vec![],
    };
    let st = validate(&c, &schema, &vec![], &vec![]);
    assert_eq!(
        st.failures,
        vec![Failure::SubschemaOpInputMismatch(
            rgb_core::types::OpType::StateTransition,
            OWNED_TY
        )]
    );
    assert_eq!(st.validity(), Validity::Invalid);
}

#[test]
fn confidential_prior_seal_cannot_be_validated() {
    let schema = test_schema();
    let genesis = genesis_op(vec![GLOBAL_TY]);
    let mut t = transition_op(genesis.id);
    // reference the confidential output of the genesis
    let mut g = genesis.clone();
    g.assignments = vec![Assignment {
        ty: OWNED_TY,
        seal: SealDecl::Confidential(SecretSeal([3u8; 32])),
        state: AssignedState::Declarative,
    }];
    t.inputs = vec![Opout { op: g.id, ty: OWNED_TY, no: 0 }];
    let bad = t.inputs[0];
    let anchors = vec![good_anchor(&t, WitnessResolution::Mined)];
    let c = Consignment {
        schema_id: schema.schema_id(),
        genesis: g,
        operations: vec![t],
        endpoints: vec![],
    };
    let st = validate(&c, &schema, &anchors, &vec![]);
    assert_eq!(st.failures, vec![Failure::ConfidentialSeal(bad)]);
    assert_eq!(st.validity(), Validity::Invalid);
}

#[test]
fn broken_anchor_reports_every_defect() {
    let schema = test_schema();
    let genesis = genesis_op(vec![GLOBAL_TY]);
    let t = transition_op(genesis.id);
    let tid = t.id;
    let txid = Txid([6u8; 32]);
    let anchors = vec![AnchorCheck {
        opid: tid,
        txid,
        in_anchor: false,
        mpc_proof_valid: false,
        resolution: WitnessResolution::Mined,
        seal_error: Some(String::from("seal does not close")),
        anchor_error: Some(String::from("inclusion proof invalid")),
    }];
    let c = Consignment {
        schema_id: schema.schema_id(),
        genesis,
        operations: vec![t],
        endpoints: vec![],
    };
    let st = validate(&c, &schema, &anchors, &vec![]);
    assert_eq!(
        st.failures,
        vec![
            Failure::NotInAnchor(tid, txid),
            Failure::MpcInvalid(tid, txid),
            Failure::SealInvalid(tid, txid, String::from("seal does not close")),
            Failure::AnchorInvalid(tid, txid, String::from("inclusion proof invalid")),
        ]
    );
    assert_eq!(st.validity(), Validity::Invalid);
}

#[test]
fn unknown_transition_and_extension_types_fail() {
    let schema = test_schema();
    let genesis = genesis_op(vec![GLOBAL_TY]);
    let mut t = transition_op(genesis.id);
    t.ty = 77;
    t.inputs = vec![];
    let tid = t.id;
    let anchors = vec![good_anchor(&t, WitnessResolution::Mined)];
    let c = Consignment {
        schema_id: schema.schema_id(),
        genesis,
        operations: vec![t],
        endpoints: vec![],
    };
    let st = validate(&c, &schema, &anchors, &vec![]);
    assert_eq!(st.failures, vec![Failure::SchemaUnknownTransitionType(tid, 77)]);

    let schema = valency_schema();
    let mut genesis = genesis_op(vec![GLOBAL_TY]);
    genesis.valencies = vec![VALENCY_TY];
    let mut e = extension_op(genesis.id);
    e.ty = 88;
    let eid = e.id;
    let c = Consignment {
        schema_id: schema.schema_id(),
        genesis,
        operations: vec![e],
        endpoints: vec![],
    };
    let st = validate(&c, &schema, &vec![], &vec![]);
    assert_eq!(st.failures, vec![Failure::SchemaUnknownExtensionType(eid, 88)]);
}

#[test]
fn endpoint_anomalies_are_warnings() {
    let schema = test_schema();
    let genesis = genesis_op(vec![GLOBAL_TY]);
    let t = transition_op(genesis.id);
    let tid = t.id;
    // unknown witness for the endpoint's transition: a warning on the
    // endpoint, a failure plus an unresolved entry on the seal check
    let anchors = vec![good_anchor(&t, WitnessResolution::Unknown)];
    let missing_seal = SecretSeal([99u8; 32]);
    let c = Consignment {
        schema_id: schema.schema_id(),
        genesis,
        operations: vec![t],
        endpoints: vec![(tid, missing_seal)],
    };
    let st = validate(&c, &schema, &anchors, &vec![]);
    assert_eq!(
        st.warnings,
        vec![
            Warning::EndpointTransitionSealNotFound(tid, missing_seal),
            Warning::EndpointTransactionMissed(Txid([6u8; 32])),
        ]
    );
    assert_eq!(st.validity(), Validity::UnresolvedTransactions);
}

#[test]
fn dangling_endpoint_is_a_failure() {
    let schema = test_schema();
    let genesis = genesis_op(vec![GLOBAL_TY]);
    let ghost_op = OpId([42u8; 32]);
    let c = Consignment {
        schema_id: schema.schema_id(),
        genesis,
        operations: vec![],
        endpoints: vec![(ghost_op, SecretSeal([1u8; 32]))],
    };
    let st = validate(&c, &schema, &vec![], &vec![]);
    assert_eq!(st.failures, vec![Failure::TransitionAbsent(ghost_op)]);
    assert_eq!(st.validity(), Validity::Invalid);
}

#[test]
fn unconnected_operation_is_warned() {
    let schema = test_schema();
    let genesis = genesis_op(vec![GLOBAL_TY]);
    // a transition whose only reference points outside the consignment
    let t = transition_op(OpId([9u8; 32]));
    let tid = t.id;
    let anchors = vec![good_anchor(&t, WitnessResolution::Mined)];
    let c = Consignment {
        schema_id: schema.schema_id(),
        genesis,
        operations: vec![t],
        endpoints: vec![],
    };
    let st = validate(&c, &schema, &anchors, &vec![]);
    assert_eq!(st.warnings, vec![Warning::ExcessiveNode(tid)]);
    assert_eq!(st.validity(), Validity::Invalid);
}

#[test]
fn two_hop_chain_is_connected() {
    let schema = test_schema();
    let genesis = genesis_op(vec![GLOBAL_TY]);
    let t1 = transition_op(genesis.id);
    let mut t2 = transition_op(t1.id);
    t2.id = OpId([3u8; 32]);
    let mut a1 = good_anchor(&t1, WitnessResolution::Mined);
    a1.txid = Txid([6u8; 32]);
    let mut a2 = good_anchor(&t2, WitnessResolution::Mined);
    a2.txid = Txid([8u8; 32]);
    let c = Consignment {
        schema_id: schema.schema_id(),
        genesis,
        operations: vec![t1, t2],
        endpoints: vec![],
    };
    let st = validate(&c, &schema, &vec![a1, a2], &vec![]);
    assert!(st.failures.is_empty());
    assert!(st.warnings.is_empty());
    assert_eq!(st.validity(), Validity::Valid);
}
