use rgb_core::schema::{
    GenesisSchema, GlobalStateSchema, RootSchema, Schema, StateSchema, SubSchema,
    TransitionSchema, TypeMap, TypeSet,
};
use rgb_core::types::{Occurrences, SemId, BLANK_TRANSITION_ID};

fn empty_genesis() -> GenesisSchema {
    GenesisSchema { globals: TypeMap::new(), assignments: TypeMap::new(), valencies: TypeSet::new() }
}

fn small_schema() -> SubSchema {
    let mut owned: TypeMap<StateSchema> = TypeMap::new();
    owned.insert(1, StateSchema::Declarative);
    owned.insert(5, StateSchema::Structured(SemId([9u8; 32])));
    owned.insert(3, StateSchema::Declarative);
    let mut globals: TypeMap<GlobalStateSchema> = TypeMap::new();
    globals.insert(2, GlobalStateSchema { sem_id: SemId([1u8; 32]), max_items: 4 });
    Schema {
        ffv: 0,
        subset_of: None,
        global_types: globals,
        owned_types: owned,
        valency_types: TypeSet::new(),
        genesis: empty_genesis(),
        extensions: TypeMap::new(),
        transitions: TypeMap::new(),
        type_system: vec![],
        script: vec![],
    }
}

#[test]
fn type_map_keeps_canonical_order() {
    let mut m: TypeMap<u32> = TypeMap::new();
    assert!(m.insert(7, 70));
    assert!(m.insert(3, 30));
    assert!(m.insert(5, 50));
    assert_eq!(m.len(), 3);
    assert_eq!(m.get(3), Some(&30));
    assert_eq!(m.get(5), Some(&50));
    assert_eq!(m.get(7), Some(&70));
    assert_eq!(m.get(4), None);
    // replacement keeps the same key set
    assert!(m.insert(5, 55));
    assert_eq!(m.len(), 3);
    assert_eq!(m.get(5), Some(&55));
    // entries are sorted by key
    let keys: Vec<u16> = m.entries.iter().map(|e| e.0).collect();
    assert_eq!(keys, vec![3, 5, 7]);
}

#[test]
fn type_set_membership() {
    let mut s = TypeSet::new();
    assert!(s.insert(9));
    assert!(s.insert(2));
    assert!(s.insert(9));
    assert_eq!(s.len(), 2);
    assert!(s.contains(2));
    assert!(s.contains(9));
    assert!(!s.contains(5));
    assert_eq!(s.entries, vec![2, 9]);
}

#[test]
fn blank_transition_grants_every_owned_type() {
    let schema = small_schema();
    let blank = schema.blank_transition();
    // one input and one assignment bound per owned type, nothing else
    assert_eq!(blank.inputs.len(), 3);
    assert_eq!(blank.assignments.len(), 3);
    assert_eq!(blank.globals.len(), 0);
    assert_eq!(blank.valencies.len(), 0);
    for ty in [1u16, 3, 5] {
        let inp = blank.inputs.get(ty).copied().unwrap();
        let asg = blank.assignments.get(ty).copied().unwrap();
        assert_eq!(inp, Occurrences { min: 0, max: u16::MAX });
        assert_eq!(asg, Occurrences { min: 0, max: u16::MAX });
        // admits any non-negative count: rejects none
        assert!(inp.check(0).is_none());
        assert!(inp.check(1).is_none());
        assert!(inp.check(u16::MAX).is_none());
    }
    assert!(blank.inputs.get(2).is_none());
}

#[test]
fn occurrences_bounds_are_inclusive() {
    let occ = Occurrences { min: 1, max: 3 };
    assert!(occ.check(0).is_some());
    assert!(occ.check(1).is_none());
    assert!(occ.check(3).is_none());
    let m = occ.check(4).unwrap();
    assert_eq!((m.min, m.max, m.found), (1, 3, 4));
    let any = Occurrences::none_or_more();
    assert!(any.check(0).is_none());
    assert!(any.check(u16::MAX).is_none());
}

#[test]
fn schema_id_is_deterministic_over_encoding() {
    let a = small_schema();
    let b = small_schema();
    // same canonical encoding, same id
    assert_eq!(a.canonical_encoding(), b.canonical_encoding());
    assert_eq!(a.schema_id(), b.schema_id());
    assert!(a.schema_eq(&b));
    // a different schema encodes differently and gets another id
    let mut c = small_schema();
    c.ffv = 1;
    assert_ne!(a.canonical_encoding(), c.canonical_encoding());
    assert_ne!(a.schema_id(), c.schema_id());
    assert!(!a.schema_eq(&c));
}

#[test]
fn root_schema_id_differs_from_blank_variants() {
    let root = RootSchema {
        ffv: 0,
        subset_of: None,
        global_types: TypeMap::new(),
        owned_types: TypeMap::new(),
        valency_types: TypeSet::new(),
        genesis: empty_genesis(),
        extensions: TypeMap::new(),
        transitions: TypeMap::new(),
        type_system: vec![],
        script: vec![],
    };
    let id1 = root.schema_id();
    let mut root2 = root.clone();
    root2.script = vec![1, 2, 3];
    let id2 = root2.schema_id();
    assert_ne!(id1, id2);
    assert!(root.schema_eq(&root));
}

#[test]
fn blank_transition_id_is_reserved_maximum() {
    assert_eq!(BLANK_TRANSITION_ID, u16::MAX);
    let _unused: TransitionSchema = TransitionSchema::empty();
}

#[test]
fn schema_ordering_follows_ids() {
    let a = small_schema();
    let b = small_schema();
    assert_eq!(a.schema_cmp(&b), core::cmp::Ordering::Equal);
    let mut c = small_schema();
    c.ffv = 1;
    let ab = a.schema_cmp(&c);
    let ba = c.schema_cmp(&a);
    assert_ne!(ab, core::cmp::Ordering::Equal);
    // antisymmetric on distinct ids
    match ab {
        core::cmp::Ordering::Less => assert_eq!(ba, core::cmp::Ordering::Greater),
        core::cmp::Ordering::Greater => assert_eq!(ba, core::cmp::Ordering::Less),
        core::cmp::Ordering::Equal => unreachable!(),
    }
    // consistent with the raw-byte order of the ids
    assert_eq!(ab, a.schema_id().0.cmp(&c.schema_id().0));
}
