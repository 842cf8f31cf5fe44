//! Schema data model: the typed catalog of permitted state shapes and
//! operation types of a contract, optionally layered over a root schema.
//!
//! A schema is pure data plus lookup; whether an operation graph conforms to
//! it is decided by the validation engine, and whether the schema itself is
//! well-formed is likewise a validation-time question — a malformed schema
//! is a validation failure, never a crash.

use vstd::prelude::*;

use crate::types::{Occurrences, SemId, FungibleType};

verus! {

/// Marker for the integer type indexing schema type catalogs.
pub trait SchemaTypeIndex {

}

impl SchemaTypeIndex for u16 {

}

/// Ordered map from a type id to a payload, kept in canonical form: keys
/// strictly ascending, at most 255 entries.
#[derive(Clone, Debug)]
pub struct TypeMap<V> {
    pub entries: Vec<(u16, V)>,
}

impl<V> TypeMap<V> {
    /// Canonical form: strictly ascending keys, confined to 255 entries.
    pub open spec fn wf(self) -> bool {
        &&& self.entries@.len() <= 255
        &&& forall|i: int, j: int|
            0 <= i < j < self.entries@.len() ==> (#[trigger] self.entries@[i]).0 < (
            #[trigger] self.entries@[j]).0
    }

    /// Whether a key is present.
    pub open spec fn spec_contains_key(self, key: u16) -> bool {
        exists|i: int| 0 <= i < self.entries@.len() && (#[trigger] self.entries@[i]).0 == key
    }

    /// The payload stored under a key, if any.
    pub open spec fn spec_get(self, key: u16) -> Option<V> {
        if self.spec_contains_key(key) {
            let i = choose|i: int|
                0 <= i < self.entries@.len() && (#[trigger] self.entries@[i]).0 == key;
            Some(self.entries@[i].1)
        } else {
            None
        }
    }

    /// Number of entries.
    pub open spec fn spec_len(self) -> nat {
        self.entries@.len()
    }

    /// An empty map.
    pub fn new() -> (r: TypeMap<V>)
        ensures
            r.entries@ =~= Seq::<(u16, V)>::empty(),
            r.wf(),
    {
        TypeMap { entries: Vec::new() }
    }

    /// Number of entries.
    pub fn len(&self) -> (r: usize)
        ensures
            r == self.spec_len(),
    {
        self.entries.len()
    }

    /// In canonical form two entries never share a key.
    proof fn lemma_key_unique(self, i: int, j: int)
        requires
            self.wf(),
            0 <= i < self.entries@.len(),
            0 <= j < self.entries@.len(),
            self.entries@[i].0 == self.entries@[j].0,
        ensures
            i == j,
    {
    }

    /// Looks a key up.
    pub fn get(&self, key: u16) -> (r: Option<&V>)
        requires
            self.wf(),
        ensures
            r is Some <==> self.spec_contains_key(key),
            r matches Some(v) ==> self.spec_get(key) == Some(*v),
    {
        let n = self.entries.len();
        let mut i: usize = 0;
        while i < n
            invariant
                n == self.entries@.len(),
                i <= n,
                self.wf(),
                forall|j: int| 0 <= j < i ==> (#[trigger] self.entries@[j]).0 != key,
            decreases n - i,
        {
            if self.entries[i].0 == key {
                proof {
                    let w = choose|w: int|
                        0 <= w < self.entries@.len() && (#[trigger] self.entries@[w]).0 == key;
                    self.lemma_key_unique(w, i as int);
                }
                return Some(&self.entries[i].1);
            }
            i = i + 1;
        }
        None
    }

    /// Whether a key is present.
    pub fn contains_key(&self, key: u16) -> (r: bool)
        requires
            self.wf(),
        ensures
            r == self.spec_contains_key(key),
    {
        self.get(key).is_some()
    }

    /// Inserts a key, keeping canonical form: an existing entry is replaced;
    /// a new key is rejected (returning `false`) only when the map is full.
    pub fn insert(&mut self, key: u16, value: V) -> (r: bool)
        requires
            old(self).wf(),
        ensures
            final(self).wf(),
            r == (old(self).spec_contains_key(key) || old(self).spec_len() < 255),
            r ==> final(self).spec_get(key) == Some(value),
            r ==> forall|k: u16|
                k != key ==> #[trigger] final(self).spec_get(k) == old(self).spec_get(k),
            !r ==> *final(self) == *old(self),
    {
        let ghost pre = *self;
        let n = self.entries.len();
        let mut i: usize = 0;
        while i < n
            invariant
                n == self.entries@.len(),
                i <= n,
                self.wf(),
                *self == pre,
                pre == *old(self),
                forall|j: int| 0 <= j < i ==> (#[trigger] self.entries@[j]).0 < key,
            decreases n - i,
        {
            if self.entries[i].0 == key {
                proof {
                    assert(pre.entries@[i as int].0 == key);
                    assert(pre.spec_contains_key(key));
                    let w = choose|w: int|
                        0 <= w < self.entries@.len() && (#[trigger] self.entries@[w]).0 == key;
                    self.lemma_key_unique(w, i as int);
                }
                self.entries.remove(i);
                self.entries.insert(i, (key, value));
                proof {
                    assert(self.wf()) by {
                        assert(forall|a: int, b: int|
                            0 <= a < b < self.entries@.len() ==> (#[trigger] self.entries@[a]).0 < (
                            #[trigger] self.entries@[b]).0);
                    }
                    assert_key_get(*self, key, i as int);
                    assert forall|k: u16| k != key implies #[trigger] self.spec_get(k)
                        == pre.spec_get(k) by {
                        lemma_get_after_replace(pre, *self, i as int, k);
                    }
                }
                return true;
            } else if self.entries[i].0 > key {
                proof {
                    if pre.spec_contains_key(key) {
                        let w = choose|w: int|
                            0 <= w < pre.entries@.len() && (#[trigger] pre.entries@[w]).0 == key;
                        if w < i {
                            assert(pre.entries@[w].0 < key);
                        } else if w > i {
                            assert(pre.entries@[i as int].0 < pre.entries@[w].0);
                        }
                        assert(false);
                    }
                }
                if self.entries.len() >= 255 {
                    return false;
                }
                self.entries.insert(i, (key, value));
                proof {
                    assert_key_get(*self, key, i as int);
                    assert forall|k: u16| k != key implies #[trigger] self.spec_get(k)
                        == pre.spec_get(k) by {
                        lemma_get_after_insert(pre, *self, i as int, k);
                    }
                }
                return true;
            }
            i = i + 1;
        }
        proof {
            if pre.spec_contains_key(key) {
                let w = choose|w: int|
                    0 <= w < pre.entries@.len() && (#[trigger] pre.entries@[w]).0 == key;
                assert(pre.entries@[w].0 < key);
                assert(false);
            }
        }
        if self.entries.len() >= 255 {
            return false;
        }
        self.entries.push((key, value));
        proof {
            assert_key_get(*self, key, n as int);
            assert forall|k: u16| k != key implies #[trigger] self.spec_get(k) == pre.spec_get(k) by {
                lemma_get_after_insert(pre, *self, n as int, k);
            }
        }
        true
    }
}

/// In a well-formed map, an entry `(key, v)` at index `i` fixes
/// `spec_get(key)` to `Some(v)`.
proof fn assert_key_get<V>(m: TypeMap<V>, key: u16, i: int)
    requires
        m.wf(),
        0 <= i < m.entries@.len(),
        m.entries@[i].0 == key,
    ensures
        m.spec_get(key) == Some(m.entries@[i].1),
{
    let w = choose|w: int| 0 <= w < m.entries@.len() && (#[trigger] m.entries@[w]).0 == key;
    if w != i {
        if w < i {
            assert(m.entries@[w].0 < m.entries@[i].0);
        } else {
            assert(m.entries@[i].0 < m.entries@[w].0);
        }
    }
}

/// Replacing the entry at `i` leaves every other key's lookup unchanged.
proof fn lemma_get_after_replace<V>(pre: TypeMap<V>, post: TypeMap<V>, i: int, k: u16)
    requires
        pre.wf(),
        post.wf(),
        0 <= i < pre.entries@.len(),
        post.entries@.len() == pre.entries@.len(),
        forall|j: int|
            0 <= j < pre.entries@.len() && j != i ==> #[trigger] post.entries@[j]
                == pre.entries@[j],
        post.entries@[i].0 == pre.entries@[i].0,
        k != pre.entries@[i].0,
    ensures
        post.spec_get(k) == pre.spec_get(k),
{
    if pre.spec_contains_key(k) {
        let w = choose|w: int| 0 <= w < pre.entries@.len() && (#[trigger] pre.entries@[w]).0 == k;
        assert(post.entries@[w].0 == k);
        assert(post.spec_contains_key(k));
        let v = choose|v: int| 0 <= v < post.entries@.len() && (#[trigger] post.entries@[v]).0 == k;
        post.lemma_key_unique(v, w);
    } else {
        if post.spec_contains_key(k) {
            let v = choose|v: int|
                0 <= v < post.entries@.len() && (#[trigger] post.entries@[v]).0 == k;
            assert(v != i);
            assert(pre.entries@[v].0 == k);
        }
    }
}

/// Inserting a fresh entry at position `i` leaves every other key's lookup
/// unchanged.
proof fn lemma_get_after_insert<V>(pre: TypeMap<V>, post: TypeMap<V>, i: int, k: u16)
    requires
        pre.wf(),
        post.wf(),
        0 <= i <= pre.entries@.len(),
        post.entries@.len() == pre.entries@.len() + 1,
        forall|j: int| 0 <= j < i ==> #[trigger] post.entries@[j] == pre.entries@[j],
        forall|j: int|
            i <= j < pre.entries@.len() ==> #[trigger] post.entries@[j + 1] == pre.entries@[j],
        k != post.entries@[i].0,
    ensures
        post.spec_get(k) == pre.spec_get(k),
{
    if pre.spec_contains_key(k) {
        let w = choose|w: int| 0 <= w < pre.entries@.len() && (#[trigger] pre.entries@[w]).0 == k;
        let w2 = if w < i {
            w
        } else {
            w + 1
        };
        if w >= i {
            assert(post.entries@[w + 1] == pre.entries@[w]);
        }
        assert(post.entries@[w2].0 == k);
        assert(post.spec_contains_key(k));
        let v = choose|v: int| 0 <= v < post.entries@.len() && (#[trigger] post.entries@[v]).0 == k;
        post.lemma_key_unique(v, w2);
        assert(post.entries@[v].1 == pre.entries@[w].1);
    } else {
        if post.spec_contains_key(k) {
            let v = choose|v: int|
                0 <= v < post.entries@.len() && (#[trigger] post.entries@[v]).0 == k;
            assert(v != i);
            if v < i {
                assert(pre.entries@[v].0 == k);
            } else {
                let j = v - 1;
                assert(post.entries@[j + 1] == pre.entries@[j]);
                assert(pre.entries@[j].0 == k);
            }
        }
    }
}

/// Ordered set of type ids, kept in canonical form: strictly ascending, at
/// most 255 entries.
#[derive(Clone, Debug)]
pub struct TypeSet {
    pub entries: Vec<u16>,
}

impl TypeSet {
    /// Canonical form: strictly ascending, confined to 255 entries.
    pub open spec fn wf(self) -> bool {
        &&& self.entries@.len() <= 255
        &&& forall|i: int, j: int|
            0 <= i < j < self.entries@.len() ==> #[trigger] self.entries@[i]
                < #[trigger] self.entries@[j]
    }

    /// Whether a type id is a member.
    pub open spec fn spec_contains(self, key: u16) -> bool {
        self.entries@.contains(key)
    }

    /// Number of members.
    pub open spec fn spec_len(self) -> nat {
        self.entries@.len()
    }

    /// An empty set.
    pub fn new() -> (r: TypeSet)
        ensures
            r.entries@ =~= Seq::<u16>::empty(),
            r.wf(),
    {
        TypeSet { entries: Vec::new() }
    }

    /// Number of members.
    pub fn len(&self) -> (r: usize)
        ensures
            r == self.spec_len(),
    {
        self.entries.len()
    }

    /// Membership test.
    pub fn contains(&self, key: u16) -> (r: bool)
        ensures
            r == self.spec_contains(key),
    {
        let n = self.entries.len();
        let mut i: usize = 0;
        while i < n
            invariant
                n == self.entries@.len(),
                i <= n,
                forall|j: int| 0 <= j < i ==> self.entries@[j] != key,
            decreases n - i,
        {
            if self.entries[i] == key {
                return true;
            }
            i = i + 1;
        }
        false
    }

    /// Inserts a member, keeping canonical form: a present member is kept; a
    /// new member is rejected (returning `false`) only when the set is full.
    pub fn insert(&mut self, key: u16) -> (r: bool)
        requires
            old(self).wf(),
        ensures
            final(self).wf(),
            r == (old(self).spec_contains(key) || old(self).spec_len() < 255),
            r ==> final(self).spec_contains(key),
            forall|k: u16| k != key ==> final(self).spec_contains(k) == old(self).spec_contains(k),
            !r ==> *final(self) == *old(self),
    {
        let ghost pre = *self;
        let n = self.entries.len();
        let mut i: usize = 0;
        while i < n
            invariant
                n == self.entries@.len(),
                i <= n,
                self.wf(),
                *self == pre,
                pre == *old(self),
                forall|j: int| 0 <= j < i ==> self.entries@[j] < key,
            decreases n - i,
        {
            if self.entries[i] == key {
                proof {
                    assert(pre.entries@[i as int] == key);
                    assert(pre.spec_contains(key));
                }
                return true;
            } else if self.entries[i] > key {
                proof {
                    if pre.spec_contains(key) {
                        let w = choose|w: int| 0 <= w < pre.entries@.len() && pre.entries@[w] == key;
                        if w < i {
                            assert(pre.entries@[w] < key);
                        } else if w > i {
                            assert(pre.entries@[i as int] < pre.entries@[w]);
                        }
                        assert(false);
                    }
                }
                if self.entries.len() >= 255 {
                    return false;
                }
                self.entries.insert(i, key);
                proof {
                    assert(self.entries@[i as int] == key);
                    assert(self.spec_contains(key));
                    assert forall|k: u16|
                        k != key implies self.spec_contains(k) == pre.spec_contains(k) by {
                        lemma_set_insert_others(pre.entries@, self.entries@, i as int, k);
                    }
                }
                return true;
            }
            i = i + 1;
        }
        proof {
            if pre.spec_contains(key) {
                let w = choose|w: int| 0 <= w < pre.entries@.len() && pre.entries@[w] == key;
                assert(pre.entries@[w] < key);
                assert(false);
            }
        }
        if self.entries.len() >= 255 {
            return false;
        }
        self.entries.push(key);
        proof {
            assert(self.entries@[n as int] == key);
            assert(self.spec_contains(key));
            assert forall|k: u16| k != key implies self.spec_contains(k) == pre.spec_contains(k) by {
                lemma_set_insert_others(pre.entries@, self.entries@, n as int, k);
            }
        }
        true
    }
}

/// Inserting an element at position `i` leaves membership of every other
/// element unchanged.
proof fn lemma_set_insert_others(pre: Seq<u16>, post: Seq<u16>, i: int, k: u16)
    requires
        0 <= i <= pre.len(),
        post.len() == pre.len() + 1,
        forall|j: int| 0 <= j < i ==> #[trigger] post[j] == pre[j],
        forall|j: int| i <= j < pre.len() ==> #[trigger] post[j + 1] == pre[j],
        k != post[i],
    ensures
        post.contains(k) == pre.contains(k),
{
    if pre.contains(k) {
        let w = choose|w: int| 0 <= w < pre.len() && pre[w] == k;
        if w < i {
            assert(post[w] == k);
        } else {
            assert(post[w + 1] == k);
        }
        assert(post.contains(k));
    } else {
        if post.contains(k) {
            let v = choose|v: int| 0 <= v < post.len() && post[v] == k;
            if v < i {
                assert(pre[v] == k);
            } else {
                assert(v != i);
                let j = v - 1;
                assert(post[j + 1] == pre[j]);
                assert(pre[j] == k);
            }
            assert(false);
        }
    }
}

/// Constraint on one global-state type: the semantic data type of its
/// entries and the maximum number of entries an operation may carry.
#[derive(Clone, Copy, PartialEq, Eq, Debug)]
pub struct GlobalStateSchema {
    pub sem_id: SemId,
    pub max_items: u16,
}

/// Constraint on one owned-state (assignment) type: the kind of state and,
/// where applicable, its value-type constraint.
#[derive(Clone, Copy, PartialEq, Eq, Debug)]
pub enum StateSchema {
    /// Declarative (void) state carrying no value.
    Declarative,
    /// Fungible state with the given numeric representation.
    Fungible(FungibleType),
    /// Structured state whose value must match the given semantic type.
    Structured(SemId),
}

/// Occurrence bounds a genesis operation must satisfy.
#[derive(Clone, Debug)]
pub struct GenesisSchema {
    pub globals: TypeMap<Occurrences>,
    pub assignments: TypeMap<Occurrences>,
    pub valencies: TypeSet,
}

/// Occurrence bounds a state-extension operation must satisfy.
#[derive(Clone, Debug)]
pub struct ExtensionSchema {
    pub globals: TypeMap<Occurrences>,
    pub redeems: TypeSet,
    pub assignments: TypeMap<Occurrences>,
    pub valencies: TypeSet,
}

/// Occurrence bounds a state-transition operation must satisfy.
#[derive(Clone, Debug)]
pub struct TransitionSchema {
    pub globals: TypeMap<Occurrences>,
    pub inputs: TypeMap<Occurrences>,
    pub assignments: TypeMap<Occurrences>,
    pub valencies: TypeSet,
}

impl TransitionSchema {
    /// A transition schema with no bounds declared.
    pub fn empty() -> (r: TransitionSchema)
        ensures
            r.globals.entries@ =~= Seq::<(u16, Occurrences)>::empty(),
            r.inputs.entries@ =~= Seq::<(u16, Occurrences)>::empty(),
            r.assignments.entries@ =~= Seq::<(u16, Occurrences)>::empty(),
            r.valencies.entries@ =~= Seq::<u16>::empty(),
            r.globals.wf() && r.inputs.wf() && r.assignments.wf() && r.valencies.wf(),
    {
        TransitionSchema {
            globals: TypeMap::new(),
            inputs: TypeMap::new(),
            assignments: TypeMap::new(),
            valencies: TypeSet::new(),
        }
    }
}

/// Marker for types permitted at the root position of a schema: either unit
/// (a root schema subsets nothing) or a root schema (for a subschema).
pub trait SchemaRoot {

}

impl SchemaRoot for () {

}

impl SchemaRoot for Schema<()> {

}

/// A schema without a root: the top of a subsetting chain.
pub type RootSchema = Schema<()>;

/// A schema that may subset a root schema.
pub type SubSchema = Schema<RootSchema>;

/// Typed catalog of the state shapes and operation types a contract may
/// use, with an embedded type system and validation script, optionally
/// subsetting a root schema.
#[derive(Clone, Debug)]
pub struct Schema<Root: SchemaRoot> {
    /// Fast-forward format version.
    pub ffv: u16,
    /// The root schema this schema subsets, if any.
    pub subset_of: Option<Root>,
    /// Permitted global state types.
    pub global_types: TypeMap<GlobalStateSchema>,
    /// Permitted owned-state (assignment) types.
    pub owned_types: TypeMap<StateSchema>,
    /// Permitted valency types.
    pub valency_types: TypeSet,
    /// Bounds a genesis operation must satisfy.
    pub genesis: GenesisSchema,
    /// Permitted state-extension types with their bounds.
    pub extensions: TypeMap<ExtensionSchema>,
    /// Permitted state-transition types with their bounds.
    pub transitions: TypeMap<TransitionSchema>,
    /// Canonical serialized form of the embedded type system.
    pub type_system: Vec<u8>,
    /// Canonical serialized form of the embedded validation script.
    pub script: Vec<u8>,
}

impl<Root: SchemaRoot> Schema<Root> {
    /// Synthesizes the catch-all blank transition schema: every owned
    /// assignment type of this schema is granted a none-or-more bound on
    /// both inputs and assignments, so unused seals can be closed without
    /// custom semantics. No global state or valencies are admitted.
    pub fn blank_transition(&self) -> (r: TransitionSchema)
        requires
            self.owned_types.wf(),
        ensures
            r.globals.entries@ =~= Seq::<(u16, Occurrences)>::empty(),
            r.valencies.entries@ =~= Seq::<u16>::empty(),
            r.inputs.wf() && r.assignments.wf(),
            r.inputs.spec_len() == self.owned_types.spec_len(),
            r.assignments.spec_len() == self.owned_types.spec_len(),
            forall|t: u16| #[trigger]
                r.inputs.spec_contains_key(t) == self.owned_types.spec_contains_key(t),
            forall|t: u16| #[trigger]
                r.assignments.spec_contains_key(t) == self.owned_types.spec_contains_key(t),
            forall|t: u16|
                self.owned_types.spec_contains_key(t) ==> #[trigger] r.inputs.spec_get(t)
                    == Some(Occurrences { min: 0u16, max: u16::MAX }),
            forall|t: u16|
                self.owned_types.spec_contains_key(t) ==> #[trigger] r.assignments.spec_get(t)
                    == Some(Occurrences { min: 0u16, max: u16::MAX }),
            forall|n: u16| #[trigger] (Occurrences { min: 0u16, max: u16::MAX }).admits(n),
            forall|j: int|
                0 <= j < self.owned_types.entries@.len() ==> #[trigger] r.inputs.entries@[j] == (
                self.owned_types.entries@[j].0,
                Occurrences { min: 0u16, max: u16::MAX },
            ),
            forall|j: int|
                0 <= j < self.owned_types.entries@.len() ==> #[trigger] r.assignments.entries@[j]
                    == (self.owned_types.entries@[j].0, Occurrences { min: 0u16, max: u16::MAX }),
    {
        let mut schema = TransitionSchema::empty();
        let n = self.owned_types.entries.len();
        let mut i: usize = 0;
        while i < n
            invariant
                n == self.owned_types.entries@.len(),
                i <= n,
                self.owned_types.wf(),
                schema.globals.entries@ =~= Seq::<(u16, Occurrences)>::empty(),
                schema.valencies.entries@ =~= Seq::<u16>::empty(),
                schema.inputs.entries@.len() == i,
                schema.assignments.entries@.len() == i,
                forall|j: int|
                    0 <= j < i ==> #[trigger] schema.inputs.entries@[j] == (
                    self.owned_types.entries@[j].0,
                    Occurrences { min: 0u16, max: u16::MAX },
                ),
                forall|j: int|
                    0 <= j < i ==> #[trigger] schema.assignments.entries@[j] == (
                    self.owned_types.entries@[j].0,
                    Occurrences { min: 0u16, max: u16::MAX },
                ),
            decreases n - i,
        {
            let id = self.owned_types.entries[i].0;
            schema.inputs.entries.push((id, Occurrences::none_or_more()));
            schema.assignments.entries.push((id, Occurrences::none_or_more()));
            i = i + 1;
        }
        proof {
            lemma_blank_maps(self.owned_types, schema.inputs);
            lemma_blank_maps(self.owned_types, schema.assignments);
        }
        schema
    }
}

/// A map whose entries carry exactly the keys of `src`, each bound to the
/// none-or-more occurrence bound, is well-formed and looks those keys up to
/// that bound.
proof fn lemma_blank_maps<V>(src: TypeMap<V>, blank: TypeMap<Occurrences>)
    requires
        src.wf(),
        blank.entries@.len() == src.entries@.len(),
        forall|j: int|
            0 <= j < src.entries@.len() ==> #[trigger] blank.entries@[j] == (
            src.entries@[j].0,
            Occurrences { min: 0u16, max: u16::MAX },
        ),
    ensures
        blank.wf(),
        forall|t: u16| #[trigger] blank.spec_contains_key(t) == src.spec_contains_key(t),
        forall|t: u16|
            src.spec_contains_key(t) ==> #[trigger] blank.spec_get(t) == Some(
                Occurrences { min: 0u16, max: u16::MAX },
            ),
{
    assert forall|t: u16| #[trigger] blank.spec_contains_key(t) == src.spec_contains_key(t) by {
        if blank.spec_contains_key(t) {
            let i = choose|i: int|
                0 <= i < blank.entries@.len() && (#[trigger] blank.entries@[i]).0 == t;
            assert(src.entries@[i].0 == t);
            assert(src.spec_contains_key(t));
        }
        if src.spec_contains_key(t) {
            let i = choose|i: int|
                0 <= i < src.entries@.len() && (#[trigger] src.entries@[i]).0 == t;
            assert(blank.entries@[i].0 == t);
            assert(blank.spec_contains_key(t));
        }
    }
    assert forall|t: u16| src.spec_contains_key(t) implies #[trigger] blank.spec_get(t) == Some(
        Occurrences { min: 0u16, max: u16::MAX },
    ) by {
        let i = choose|i: int|
            0 <= i < blank.entries@.len() && (#[trigger] blank.entries@[i]).0 == t;
        assert(blank.entries@[i].1 == Occurrences { min: 0u16, max: u16::MAX });
    }
}

} // verus!
