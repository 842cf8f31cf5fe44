//! Canonical byte encoding of the schema model and the tagged commitment
//! over it.
//!
//! The encoding is deterministic: little-endian integers, length-prefixed
//! collections walked in their canonical (strictly ascending) order, and
//! opaque embedded blobs carried verbatim behind a length prefix. The
//! identifier of a schema is a tagged hash of this encoding, so the encoding
//! rules are part of the compatibility surface.

use vstd::prelude::*;

use sha2::Digest;

use crate::schema::{
    ExtensionSchema, GenesisSchema, GlobalStateSchema, RootSchema, Schema, SchemaRoot, StateSchema,
    SubSchema, TransitionSchema, TypeMap, TypeSet,
};
use crate::schema_id::SchemaId;
use crate::types::{FungibleType, Occurrences, SemId};

verus! {

/// Canonical encoding of a `u16`: two bytes, little-endian.
pub open spec fn enc_u16(v: u16) -> Seq<u8> {
    seq![(v & 0xff) as u8, (v >> 8) as u8]
}

/// Appends the canonical encoding of `v` to `out`.
pub fn push_u16(out: &mut Vec<u8>, v: u16)
    ensures
        final(out)@ == old(out)@ + enc_u16(v),
{
    out.push((v & 0xff) as u8);
    out.push((v >> 8) as u8);
    proof {
        assert(out@ =~= old(out)@ + enc_u16(v));
    }
}

/// Appends a byte slice verbatim.
pub fn push_bytes(out: &mut Vec<u8>, b: &[u8])
    ensures
        final(out)@ == old(out)@ + b@,
{
    let ghost base = out@;
    let n = b.len();
    let mut i: usize = 0;
    while i < n
        invariant
            n == b@.len(),
            i <= n,
            out@ =~= base + b@.take(i as int),
        decreases n - i,
    {
        out.push(b[i]);
        proof {
            assert(b@.take(i + 1 as int) =~= b@.take(i as int).push(b@[i as int]));
        }
        i = i + 1;
    }
    proof {
        assert(b@.take(n as int) =~= b@);
        assert(out@ =~= base + b@);
    }
}

/// Canonical encoding of an opaque blob: a little-endian `u16` length
/// prefix followed by the bytes themselves.
pub open spec fn enc_blob(b: Seq<u8>) -> Seq<u8> {
    enc_u16(b.len() as u16) + b
}

/// Appends the canonical encoding of an opaque blob.
pub fn push_blob(out: &mut Vec<u8>, b: &Vec<u8>)
    requires
        b@.len() <= 65535,
    ensures
        final(out)@ == old(out)@ + enc_blob(b@),
{
    push_u16(out, b.len() as u16);
    push_bytes(out, b.as_slice());
    proof {
        assert(out@ =~= old(out)@ + enc_blob(b@));
    }
}

/// A value of the schema model with a canonical byte encoding.
pub trait SchemaEncode: Sized {
    /// Canonical byte encoding of this value.
    spec fn enc(self) -> Seq<u8>;

    /// Structural side conditions the encoder needs (canonical form of
    /// nested collections, blob length confinement).
    spec fn enc_wf(self) -> bool;

    /// Appends the canonical encoding of `self` to `out`.
    fn push_enc(&self, out: &mut Vec<u8>)
        requires
            self.enc_wf(),
        ensures
            final(out)@ == old(out)@ + self.enc(),
    ;
}

/// Canonical encoding of a key-ordered entry sequence: each entry is its
/// key followed by its payload.
pub open spec fn enc_pairs<V: SchemaEncode>(s: Seq<(u16, V)>) -> Seq<u8>
    decreases s.len(),
{
    if s.len() == 0 {
        Seq::empty()
    } else {
        enc_pairs(s.drop_last()) + enc_u16(s.last().0) + s.last().1.enc()
    }
}

/// Well-formedness of a map for encoding purposes: canonical form plus the
/// side conditions of every payload.
pub open spec fn map_enc_wf<V: SchemaEncode>(m: TypeMap<V>) -> bool {
    &&& m.wf()
    &&& forall|i: int| 0 <= i < m.entries@.len() ==> (#[trigger] m.entries@[i]).1.enc_wf()
}

/// Canonical encoding of a type map: a one-byte entry count followed by the
/// entries in ascending key order.
pub open spec fn enc_map<V: SchemaEncode>(m: TypeMap<V>) -> Seq<u8> {
    seq![m.spec_len() as u8] + enc_pairs(m.entries@)
}

/// Appends the canonical encoding of a type map.
pub fn push_map<V: SchemaEncode>(out: &mut Vec<u8>, m: &TypeMap<V>)
    requires
        map_enc_wf(*m),
    ensures
        final(out)@ == old(out)@ + enc_map(*m),
{
    let ghost base = out@;
    let n = m.entries.len();
    out.push(n as u8);
    let mut i: usize = 0;
    proof {
        assert(m.entries@.take(0) =~= Seq::<(u16, V)>::empty());
        assert(out@ =~= base + seq![(n as u8)] + enc_pairs(m.entries@.take(0)));
    }
    while i < n
        invariant
            n == m.entries@.len(),
            i <= n,
            map_enc_wf(*m),
            out@ =~= base + seq![(n as u8)] + enc_pairs(m.entries@.take(i as int)),
        decreases n - i,
    {
        let e = &m.entries[i];
        proof {
            assert(m.entries@[i as int].1.enc_wf());
        }
        push_u16(out, e.0);
        e.1.push_enc(out);
        proof {
            let t1 = m.entries@.take(i + 1 as int);
            assert(t1.drop_last() =~= m.entries@.take(i as int));
            assert(t1.last() == m.entries@[i as int]);
            assert(out@ =~= base + seq![(n as u8)] + enc_pairs(t1));
        }
        i = i + 1;
    }
    proof {
        assert(m.entries@.take(n as int) =~= m.entries@);
        assert(out@ =~= base + enc_map(*m));
    }
}

/// Canonical encoding of an ascending sequence of type ids.
pub open spec fn enc_u16_seq(s: Seq<u16>) -> Seq<u8>
    decreases s.len(),
{
    if s.len() == 0 {
        Seq::empty()
    } else {
        enc_u16_seq(s.drop_last()) + enc_u16(s.last())
    }
}

/// Canonical encoding of a type set: a one-byte member count followed by
/// the members in ascending order.
pub open spec fn enc_type_set(ts: TypeSet) -> Seq<u8> {
    seq![ts.spec_len() as u8] + enc_u16_seq(ts.entries@)
}

/// Appends the canonical encoding of a type set.
pub fn push_type_set(out: &mut Vec<u8>, ts: &TypeSet)
    requires
        ts.wf(),
    ensures
        final(out)@ == old(out)@ + enc_type_set(*ts),
{
    let ghost base = out@;
    let n = ts.entries.len();
    out.push(n as u8);
    let mut i: usize = 0;
    proof {
        assert(ts.entries@.take(0) =~= Seq::<u16>::empty());
        assert(out@ =~= base + seq![(n as u8)] + enc_u16_seq(ts.entries@.take(0)));
    }
    while i < n
        invariant
            n == ts.entries@.len(),
            i <= n,
            out@ =~= base + seq![(n as u8)] + enc_u16_seq(ts.entries@.take(i as int)),
        decreases n - i,
    {
        push_u16(out, ts.entries[i]);
        proof {
            let t1 = ts.entries@.take(i + 1 as int);
            assert(t1.drop_last() =~= ts.entries@.take(i as int));
            assert(t1.last() == ts.entries@[i as int]);
            assert(out@ =~= base + seq![(n as u8)] + enc_u16_seq(t1));
        }
        i = i + 1;
    }
    proof {
        assert(ts.entries@.take(n as int) =~= ts.entries@);
        assert(out@ =~= base + enc_type_set(*ts));
    }
}

/// Canonical encoding of a 32-byte semantic type id: the bytes verbatim.
pub open spec fn enc_sem_id(id: SemId) -> Seq<u8> {
    id.0@
}

impl SchemaEncode for Occurrences {
    open spec fn enc(self) -> Seq<u8> {
        enc_u16(self.min) + enc_u16(self.max)
    }

    open spec fn enc_wf(self) -> bool {
        true
    }

    fn push_enc(&self, out: &mut Vec<u8>) {
        push_u16(out, self.min);
        push_u16(out, self.max);
        proof {
            assert(out@ =~= old(out)@ + self.enc());
        }
    }
}

impl SchemaEncode for GlobalStateSchema {
    open spec fn enc(self) -> Seq<u8> {
        enc_sem_id(self.sem_id) + enc_u16(self.max_items)
    }

    open spec fn enc_wf(self) -> bool {
        true
    }

    fn push_enc(&self, out: &mut Vec<u8>) {
        push_bytes(out, self.sem_id.0.as_slice());
        push_u16(out, self.max_items);
        proof {
            assert(out@ =~= old(out)@ + self.enc());
        }
    }
}

impl SchemaEncode for StateSchema {
    open spec fn enc(self) -> Seq<u8> {
        match self {
            StateSchema::Declarative => seq![0u8],
            StateSchema::Fungible(FungibleType::Unsigned64Bit) => seq![1u8, 0u8],
            StateSchema::Structured(id) => seq![2u8] + enc_sem_id(id),
        }
    }

    open spec fn enc_wf(self) -> bool {
        true
    }

    fn push_enc(&self, out: &mut Vec<u8>) {
        match self {
            StateSchema::Declarative => {
                out.push(0u8);
            },
            StateSchema::Fungible(FungibleType::Unsigned64Bit) => {
                out.push(1u8);
                out.push(0u8);
            },
            StateSchema::Structured(id) => {
                out.push(2u8);
                push_bytes(out, id.0.as_slice());
            },
        }
        proof {
            assert(out@ =~= old(out)@ + self.enc());
        }
    }
}

impl SchemaEncode for GenesisSchema {
    open spec fn enc(self) -> Seq<u8> {
        enc_map(self.globals) + enc_map(self.assignments) + enc_type_set(self.valencies)
    }

    open spec fn enc_wf(self) -> bool {
        map_enc_wf(self.globals) && map_enc_wf(self.assignments) && self.valencies.wf()
    }

    fn push_enc(&self, out: &mut Vec<u8>) {
        push_map(out, &self.globals);
        push_map(out, &self.assignments);
        push_type_set(out, &self.valencies);
        proof {
            assert(out@ =~= old(out)@ + self.enc());
        }
    }
}

impl SchemaEncode for ExtensionSchema {
    open spec fn enc(self) -> Seq<u8> {
        enc_map(self.globals) + enc_type_set(self.redeems) + enc_map(self.assignments)
            + enc_type_set(self.valencies)
    }

    open spec fn enc_wf(self) -> bool {
        map_enc_wf(self.globals) && self.redeems.wf() && map_enc_wf(self.assignments)
            && self.valencies.wf()
    }

    fn push_enc(&self, out: &mut Vec<u8>) {
        push_map(out, &self.globals);
        push_type_set(out, &self.redeems);
        push_map(out, &self.assignments);
        push_type_set(out, &self.valencies);
        proof {
            assert(out@ =~= old(out)@ + self.enc());
        }
    }
}

impl SchemaEncode for TransitionSchema {
    open spec fn enc(self) -> Seq<u8> {
        enc_map(self.globals) + enc_map(self.inputs) + enc_map(self.assignments) + enc_type_set(
            self.valencies,
        )
    }

    open spec fn enc_wf(self) -> bool {
        map_enc_wf(self.globals) && map_enc_wf(self.inputs) && map_enc_wf(self.assignments)
            && self.valencies.wf()
    }

    fn push_enc(&self, out: &mut Vec<u8>) {
        push_map(out, &self.globals);
        push_map(out, &self.inputs);
        push_map(out, &self.assignments);
        push_type_set(out, &self.valencies);
        proof {
            assert(out@ =~= old(out)@ + self.enc());
        }
    }
}

/// Canonical encoding of the root-independent part of a schema: its type
/// catalogs, operation bounds, and the embedded type system and script.
pub open spec fn enc_body<Root: SchemaRoot>(s: Schema<Root>) -> Seq<u8> {
    enc_map(s.global_types) + enc_map(s.owned_types) + enc_type_set(s.valency_types)
        + s.genesis.enc() + enc_map(s.extensions) + enc_map(s.transitions) + enc_blob(
        s.type_system@,
    ) + enc_blob(s.script@)
}

/// Well-formedness of the root-independent part of a schema for encoding:
/// every catalog in canonical form and the embedded blobs confined to the
/// length prefix.
pub open spec fn schema_body_wf<Root: SchemaRoot>(s: Schema<Root>) -> bool {
    &&& map_enc_wf(s.global_types)
    &&& map_enc_wf(s.owned_types)
    &&& s.valency_types.wf()
    &&& s.genesis.enc_wf()
    &&& map_enc_wf(s.extensions)
    &&& map_enc_wf(s.transitions)
    &&& s.type_system@.len() <= 65535
    &&& s.script@.len() <= 65535
}

/// Appends the canonical encoding of the root-independent part of a schema.
fn push_body<Root: SchemaRoot>(out: &mut Vec<u8>, s: &Schema<Root>)
    requires
        schema_body_wf(*s),
    ensures
        final(out)@ == old(out)@ + enc_body(*s),
{
    push_map(out, &s.global_types);
    push_map(out, &s.owned_types);
    push_type_set(out, &s.valency_types);
    s.genesis.push_enc(out);
    push_map(out, &s.extensions);
    push_map(out, &s.transitions);
    push_blob(out, &s.type_system);
    push_blob(out, &s.script);
    proof {
        assert(out@ =~= old(out)@ + enc_body(*s));
    }
}

/// Well-formedness of a root schema for encoding.
pub open spec fn root_schema_wf(s: RootSchema) -> bool {
    schema_body_wf(s)
}

/// Well-formedness of a subschema for encoding.
pub open spec fn sub_schema_wf(s: SubSchema) -> bool {
    &&& schema_body_wf(s)
    &&& (s.subset_of matches Some(r) ==> schema_body_wf(r))
}

/// Canonical encoding of a root schema: format version, a marker for the
/// (absent or unit) root, then the schema body.
pub open spec fn enc_root_schema(s: RootSchema) -> Seq<u8> {
    enc_u16(s.ffv) + (match s.subset_of {
        None => seq![0u8],
        Some(_) => seq![1u8],
    }) + enc_body(s)
}

/// Canonical encoding of a subschema: format version, the root schema it
/// subsets (if any), then the schema body.
pub open spec fn enc_sub_schema(s: SubSchema) -> Seq<u8> {
    enc_u16(s.ffv) + (match s.subset_of {
        None => seq![0u8],
        Some(r) => seq![1u8] + enc_root_schema(r),
    }) + enc_body(s)
}

/// The domain-separation tag under which schema identifiers commit: a fixed
/// 32-byte namespace string unique to the schema entity kind, so ids of
/// different entity kinds can never collide even if encodings coincide.
pub open spec fn schema_tag() -> Seq<u8> {
    seq![
        0x75u8, 0x72u8, 0x6eu8, 0x3au8, 0x6cu8, 0x6eu8, 0x70u8, 0x62u8, 0x70u8, 0x3au8, 0x72u8,
        0x67u8, 0x62u8, 0x3au8, 0x73u8, 0x63u8, 0x68u8, 0x65u8, 0x6du8, 0x61u8, 0x3au8, 0x76u8,
        0x30u8, 0x31u8, 0x23u8, 0x32u8, 0x30u8, 0x32u8, 0x33u8, 0x30u8, 0x32u8, 0x41u8,
    ]
}

/// The schema commitment tag, as bytes: the ASCII namespace string
/// `urn:lnpbp:rgb:schema:v01#202302A`.
pub fn schema_tag_bytes() -> (r: Vec<u8>)
    ensures
        r@ == schema_tag(),
{
    let r: Vec<u8> = vec![
        0x75u8, 0x72u8, 0x6eu8, 0x3au8, 0x6cu8, 0x6eu8, 0x70u8, 0x62u8, 0x70u8, 0x3au8, 0x72u8,
        0x67u8, 0x62u8, 0x3au8, 0x73u8, 0x63u8, 0x68u8, 0x65u8, 0x6du8, 0x61u8, 0x3au8, 0x76u8,
        0x30u8, 0x31u8, 0x23u8, 0x32u8, 0x30u8, 0x32u8, 0x33u8, 0x30u8, 0x32u8, 0x41u8,
    ];
    proof {
        assert(r@ =~= schema_tag());
    }
    r
}

/// SHA-256 digest of a byte sequence, as the `sha2` crate computes it.
pub uninterp spec fn sha256(data: Seq<u8>) -> Seq<u8>;

/// Relies on `sha2::Sha256` (FIPS 180-4 SHA-256): the digest is a pure
/// function of the input bytes alone and is exactly 32 bytes long.
#[verifier::external_body]
fn sha256_digest(data: &[u8]) -> (r: [u8; 32])
    ensures
        r@ == sha256(data@),
{
    sha2::Sha256::digest(data).into()
}

/// A tagged commitment digest: the engine is seeded with two copies of the
/// hashed domain tag before the payload, so commitments under different
/// tags can never be confused.
pub open spec fn commit_digest(tag: Seq<u8>, data: Seq<u8>) -> Seq<u8> {
    sha256(sha256(tag) + sha256(tag) + data)
}

/// Computes the tagged commitment over `data` under the schema tag.
pub fn schema_commitment(data: &Vec<u8>) -> (r: [u8; 32])
    ensures
        r@ == commit_digest(schema_tag(), data@),
{
    let tag = schema_tag_bytes();
    let th = sha256_digest(tag.as_slice());
    let mut buf: Vec<u8> = Vec::new();
    push_bytes(&mut buf, th.as_slice());
    push_bytes(&mut buf, th.as_slice());
    push_bytes(&mut buf, data.as_slice());
    proof {
        assert(buf@ =~= sha256(schema_tag()) + sha256(schema_tag()) + data@);
    }
    sha256_digest(buf.as_slice())
}

/// The identifier a root schema commits to.
pub open spec fn spec_root_schema_id(s: RootSchema) -> Seq<u8> {
    commit_digest(schema_tag(), enc_root_schema(s))
}

/// The identifier a subschema commits to.
pub open spec fn spec_sub_schema_id(s: SubSchema) -> Seq<u8> {
    commit_digest(schema_tag(), enc_sub_schema(s))
}

impl RootSchema {
    /// Canonical byte encoding of this root schema.
    pub fn canonical_encoding(&self) -> (r: Vec<u8>)
        requires
            root_schema_wf(*self),
        ensures
            r@ == enc_root_schema(*self),
    {
        let mut out: Vec<u8> = Vec::new();
        push_u16(&mut out, self.ffv);
        match &self.subset_of {
            None => out.push(0u8),
            Some(_) => out.push(1u8),
        }
        push_body(&mut out, self);
        proof {
            assert(out@ =~= enc_root_schema(*self));
        }
        out
    }

    /// Content-addressed identifier: the tagged commitment over the
    /// schema's canonical encoding.
    pub fn schema_id(&self) -> (r: SchemaId)
        requires
            root_schema_wf(*self),
        ensures
            r.0@ == spec_root_schema_id(*self),
    {
        let enc = self.canonical_encoding();
        SchemaId(schema_commitment(&enc))
    }

    /// Total order of schemas: schemas order by their ids' raw bytes, the
    /// same way their equality is commitment equality.
    pub fn schema_cmp(&self, other: &RootSchema) -> (r: core::cmp::Ordering)
        requires
            root_schema_wf(*self),
            root_schema_wf(*other),
        ensures
            (r is Equal) == (spec_root_schema_id(*self) == spec_root_schema_id(*other)),
            (r is Less) == lex_lt(spec_root_schema_id(*self), spec_root_schema_id(*other)),
            (r is Greater) == lex_lt(spec_root_schema_id(*other), spec_root_schema_id(*self)),
    {
        let a = self.schema_id();
        let b = other.schema_id();
        let r = bytes32_cmp(&a.0, &b.0);
        proof {
            if a.0@ =~= b.0@ {
                assert(spec_root_schema_id(*self) == spec_root_schema_id(*other));
            }
            if spec_root_schema_id(*self) == spec_root_schema_id(*other) {
                assert(a.0@ =~= b.0@);
            }
        }
        r
    }

    /// Structural equality of schemas is commitment equality: two schemas
    /// are the same schema exactly when their ids agree.
    pub fn schema_eq(&self, other: &RootSchema) -> (r: bool)
        requires
            root_schema_wf(*self),
            root_schema_wf(*other),
        ensures
            r == (spec_root_schema_id(*self) == spec_root_schema_id(*other)),
    {
        let a = self.schema_id();
        let b = other.schema_id();
        let r = bytes32_eq(&a.0, &b.0);
        proof {
            if a.0@ =~= b.0@ {
                assert(spec_root_schema_id(*self) == spec_root_schema_id(*other));
            }
        }
        r
    }
}

impl SubSchema {
    /// Canonical byte encoding of this subschema.
    pub fn canonical_encoding(&self) -> (r: Vec<u8>)
        requires
            sub_schema_wf(*self),
        ensures
            r@ == enc_sub_schema(*self),
    {
        let mut out: Vec<u8> = Vec::new();
        push_u16(&mut out, self.ffv);
        match &self.subset_of {
            None => out.push(0u8),
            Some(root) => {
                out.push(1u8);
                push_u16(&mut out, root.ffv);
                match &root.subset_of {
                    None => out.push(0u8),
                    Some(_) => out.push(1u8),
                }
                push_body(&mut out, root);
            },
        }
        push_body(&mut out, self);
        proof {
            assert(out@ =~= enc_sub_schema(*self));
        }
        out
    }

    /// Content-addressed identifier: the tagged commitment over the
    /// schema's canonical encoding.
    pub fn schema_id(&self) -> (r: SchemaId)
        requires
            sub_schema_wf(*self),
        ensures
            r.0@ == spec_sub_schema_id(*self),
    {
        let enc = self.canonical_encoding();
        SchemaId(schema_commitment(&enc))
    }

    /// Total order of schemas: schemas order by their ids' raw bytes, the
    /// same way their equality is commitment equality.
    pub fn schema_cmp(&self, other: &SubSchema) -> (r: core::cmp::Ordering)
        requires
            sub_schema_wf(*self),
            sub_schema_wf(*other),
        ensures
            (r is Equal) == (spec_sub_schema_id(*self) == spec_sub_schema_id(*other)),
            (r is Less) == lex_lt(spec_sub_schema_id(*self), spec_sub_schema_id(*other)),
            (r is Greater) == lex_lt(spec_sub_schema_id(*other), spec_sub_schema_id(*self)),
    {
        let a = self.schema_id();
        let b = other.schema_id();
        let r = bytes32_cmp(&a.0, &b.0);
        proof {
            if a.0@ =~= b.0@ {
                assert(spec_sub_schema_id(*self) == spec_sub_schema_id(*other));
            }
            if spec_sub_schema_id(*self) == spec_sub_schema_id(*other) {
                assert(a.0@ =~= b.0@);
            }
        }
        r
    }

    /// Structural equality of schemas is commitment equality: two schemas
    /// are the same schema exactly when their ids agree.
    pub fn schema_eq(&self, other: &SubSchema) -> (r: bool)
        requires
            sub_schema_wf(*self),
            sub_schema_wf(*other),
        ensures
            r == (spec_sub_schema_id(*self) == spec_sub_schema_id(*other)),
    {
        let a = self.schema_id();
        let b = other.schema_id();
        let r = bytes32_eq(&a.0, &b.0);
        proof {
            if a.0@ =~= b.0@ {
                assert(spec_sub_schema_id(*self) == spec_sub_schema_id(*other));
            }
        }
        r
    }
}

/// Lexicographic order on equal-length byte strings: decided by the first
/// differing position.
pub open spec fn lex_lt(a: Seq<u8>, b: Seq<u8>) -> bool {
    exists|i: int|
        0 <= i < a.len() && i < b.len() && (#[trigger] a[i]) < b[i] && (forall|j: int|
            0 <= j < i ==> a[j] == b[j])
}

/// Byte-wise lexicographic comparison of two 32-byte arrays.
pub fn bytes32_cmp(a: &[u8; 32], b: &[u8; 32]) -> (r: core::cmp::Ordering)
    ensures
        (r is Equal) == (a@ =~= b@),
        (r is Less) == lex_lt(a@, b@),
        (r is Greater) == lex_lt(b@, a@),
{
    let sa = a.as_slice();
    let sb = b.as_slice();
    let mut i: usize = 0;
    while i < 32
        invariant
            i <= 32,
            sa@ == a@,
            sb@ == b@,
            sa@.len() == 32,
            sb@.len() == 32,
            forall|j: int| 0 <= j < i ==> a@[j] == b@[j],
        decreases 32 - i,
    {
        if sa[i] < sb[i] {
            proof {
                assert(lex_lt(a@, b@));
                if lex_lt(b@, a@) {
                    let w = choose|w: int|
                        0 <= w < b@.len() && w < a@.len() && (#[trigger] b@[w]) < a@[w] && (forall|
                            j: int,
                        |
                            0 <= j < w ==> b@[j] == a@[j]);
                    if w < i {
                        assert(a@[w] == b@[w]);
                    } else if w > i {
                        assert(b@[i as int] == a@[i as int]);
                    }
                    assert(false);
                }
            }
            return core::cmp::Ordering::Less;
        }
        if sa[i] > sb[i] {
            proof {
                assert(lex_lt(b@, a@));
                if lex_lt(a@, b@) {
                    let w = choose|w: int|
                        0 <= w < a@.len() && w < b@.len() && (#[trigger] a@[w]) < b@[w] && (forall|
                            j: int,
                        |
                            0 <= j < w ==> a@[j] == b@[j]);
                    if w < i {
                        assert(a@[w] == b@[w]);
                    } else if w > i {
                        assert(a@[i as int] == b@[i as int]);
                    }
                    assert(false);
                }
            }
            return core::cmp::Ordering::Greater;
        }
        i = i + 1;
    }
    proof {
        assert(a@ =~= b@);
        if lex_lt(a@, b@) {
            let w = choose|w: int|
                0 <= w < a@.len() && w < b@.len() && (#[trigger] a@[w]) < b@[w] && (forall|j: int|
                    0 <= j < w ==> a@[j] == b@[j]);
            assert(false);
        }
        if lex_lt(b@, a@) {
            let w = choose|w: int|
                0 <= w < b@.len() && w < a@.len() && (#[trigger] b@[w]) < a@[w] && (forall|j: int|
                    0 <= j < w ==> b@[j] == a@[j]);
            assert(false);
        }
    }
    core::cmp::Ordering::Equal
}

/// Byte-wise equality of two 32-byte arrays.
pub fn bytes32_eq(a: &[u8; 32], b: &[u8; 32]) -> (r: bool)
    ensures
        r == (a@ =~= b@),
{
    let sa = a.as_slice();
    let sb = b.as_slice();
    let mut i: usize = 0;
    while i < 32
        invariant
            i <= 32,
            sa@ == a@,
            sb@ == b@,
            sa@.len() == 32,
            sb@.len() == 32,
            forall|j: int| 0 <= j < i ==> a@[j] == b@[j],
        decreases 32 - i,
    {
        if sa[i] != sb[i] {
            return false;
        }
        i = i + 1;
    }
    true
}

/// Commitment determinism: schemas with the same canonical encoding have
/// the same identifier. (The converse — distinct encodings never collide in
/// the identifier — is the collision resistance of the underlying hash, a
/// cryptographic assumption rather than a theorem.)
pub proof fn lemma_root_id_of_encoding(a: RootSchema, b: RootSchema)
    requires
        enc_root_schema(a) == enc_root_schema(b),
    ensures
        spec_root_schema_id(a) == spec_root_schema_id(b),
{
}

/// Commitment determinism for subschemas, as for root schemas.
pub proof fn lemma_sub_id_of_encoding(a: SubSchema, b: SubSchema)
    requires
        enc_sub_schema(a) == enc_sub_schema(b),
    ensures
        spec_sub_schema_id(a) == spec_sub_schema_id(b),
{
}

} // verus!
