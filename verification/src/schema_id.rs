//! Content-addressed schema identifier and its human-readable form: a
//! chunked base58 string with a three-word mnemonic suffix, optionally
//! wrapped into a namespaced URN.

use vstd::prelude::*;
use vstd::string::{StrSliceExecFns, StringExecFns};

use base58::{FromBase58, ToBase58};

verus! {

/// Schema identifier.
///
/// Schema identifier commits to all of the schema data: it is the tagged
/// hash of the schema's canonical encoding. Equality and ordering of
/// schemas are defined through this id, never through field-wise
/// comparison.
#[derive(Clone, Copy, PartialEq, Eq, PartialOrd, Ord, Hash, Debug)]
pub struct SchemaId(pub [u8; 32]);

/// Structured error for a schema id string that does not parse.
#[derive(Clone, PartialEq, Eq, Debug)]
pub enum SchemaIdParseError {
    /// A character outside the base58 alphabet, with its position.
    InvalidBase58Character(char, usize),
    /// The base58 payload has an invalid length.
    InvalidBase58Length,
    /// The decoded payload is not 32 bytes long.
    InvalidLen(usize),
    /// Chunk separators are present but not at the canonical positions.
    InvalidChunking,
    /// The mnemonic suffix does not match the payload's checksum words.
    InvalidMnemonic,
}

/// The base58 string of a 32-byte payload, as the `base58` crate encodes
/// it.
pub uninterp spec fn base58_of(payload: Seq<u8>) -> Seq<char>;

/// The three-word mnemonic of a payload's checksum under a human-readable
/// identifier, as the `baid58` crate derives it (kebab case).
pub uninterp spec fn baid58_mnemonic(hri: Seq<char>, payload: Seq<u8>) -> Seq<char>;

/// Membership in the base58 alphabet
/// (`123456789ABCDEFGHJKLMNPQRSTUVWXYZabcdefghijkmnopqrstuvwxyz`).
pub open spec fn is_b58_char(c: char) -> bool {
    ('1' <= c && c <= '9') || ('A' <= c && c <= 'H') || ('J' <= c && c <= 'N') || ('P' <= c && c
        <= 'Z') || ('a' <= c && c <= 'k') || ('m' <= c && c <= 'z')
}

/// Characters a kebab-case mnemonic is made of: lowercase words joined by
/// dashes.
pub open spec fn is_mnemonic_char(c: char) -> bool {
    ('a' <= c && c <= 'z') || c == '-'
}

/// Relies on `base58::ToBase58` for `[u8]`: the encoding is a pure function
/// of the bytes alone, over the 58-character alphabet above. A 32-byte
/// payload encodes to at most 45 characters: one character per leading
/// zero byte plus the encoder's digit buffer of `32 * 138 / 100 + 1`
/// bytes for the remainder.
#[verifier::external_body]
fn base58_str(payload: &[u8; 32]) -> (r: String)
    ensures
        r@ == base58_of(payload@),
        r@.len() <= 45,
        forall|i: int| 0 <= i < r@.len() ==> is_b58_char(#[trigger] r@[i]),
{
    payload.as_slice().to_base58()
}

/// Relies on `base58::FromBase58` for `str`: decoding inverts the encoding
/// of any 32-byte payload, and a successfully decoded string is the
/// encoding of its result. The decoder works over fixed 132-byte buffers
/// and must not be handed longer strings: beyond that bound its
/// leading-zero bookkeeping underflows and it panics, so the length bound
/// is a precondition here.
#[verifier::external_body]
fn base58_decode(s: &str) -> (r: Result<Vec<u8>, SchemaIdParseError>)
    requires
        s@.len() <= 132,
    ensures
        forall|b: Seq<u8>| b.len() == 32 && s@ == base58_of(b) ==> (r is Ok && r->Ok_0@ == b),
        r matches Ok(v) ==> s@ == base58_of(v@),
{
    match s.from_base58() {
        Ok(v) => Ok(v),
        Err(base58::FromBase58Error::InvalidBase58Character(c, pos)) => Err(
            SchemaIdParseError::InvalidBase58Character(c, pos),
        ),
        Err(base58::FromBase58Error::InvalidBase58Length) => Err(
            SchemaIdParseError::InvalidBase58Length,
        ),
    }
}

/// Relies on `baid58::Baid58::mnemonic`: the kebab-case mnemonic is a pure
/// function of the human-readable identifier and the payload (three
/// lowercase checksum words joined by dashes).
#[verifier::external_body]
fn baid58_mnemonic_str(hri: &'static str, payload: &[u8; 32]) -> (r: String)
    ensures
        r@ == baid58_mnemonic(hri@, payload@),
        forall|i: int| 0 <= i < r@.len() ==> is_mnemonic_char(#[trigger] r@[i]),
{
    baid58::Baid58::<32>::with(hri, *payload).mnemonic()
}

/// The human-readable identifier of schema ids.
pub open spec fn sc_hri() -> Seq<char> {
    seq!['s', 'c']
}

/// The URN namespace prefix.
pub open spec fn urn_prefix() -> Seq<char> {
    seq!['u', 'r', 'n', ':', 'l', 'n', 'p', '-', 'b', 'p', ':']
}

/// The entity prefix following the URN namespace.
pub open spec fn sc_prefix() -> Seq<char> {
    seq!['s', 'c', ':']
}

/// Whether a chunk separator stands before the character at index `i` of
/// the unchunked string: chunks are 6, 8, 8, 8, 8 characters long, with
/// the remainder after the last boundary.
pub open spec fn is_chunk_boundary(i: int) -> bool {
    i == 6 || i == 14 || i == 22 || i == 30 || i == 38
}

/// The first `n` characters of `s` with chunk separators inserted.
pub open spec fn chunk_prefix(s: Seq<char>, n: int) -> Seq<char>
    decreases n,
{
    if n <= 0 {
        Seq::empty()
    } else {
        chunk_prefix(s, n - 1) + (if is_chunk_boundary(n - 1) {
            seq!['-', s[n - 1]]
        } else {
            seq![s[n - 1]]
        })
    }
}

/// `s` with chunk separators inserted at the canonical positions.
pub open spec fn chunk(s: Seq<char>) -> Seq<char> {
    chunk_prefix(s, s.len() as int)
}

/// Inserts chunk separators at the canonical positions.
fn chunk_string(src: &String) -> (r: String)
    ensures
        r@ == chunk(src@),
{
    let s = src.as_str();
    let n = s.unicode_len();
    let mut out = String::new();
    let mut i: usize = 0;
    proof {
        reveal_strlit("-");
    }
    while i < n
        invariant
            n == src@.len(),
            s@ == src@,
            out@ =~= chunk_prefix(src@, i as int),
            i <= n,
            "-"@ == seq!['-'],
        decreases n - i,
    {
        if i == 6 || i == 14 || i == 22 || i == 30 || i == 38 {
            out.append("-");
        }
        out.append(s.substring_char(i, i + 1));
        proof {
            assert(s@.subrange(i as int, i + 1 as int) =~= seq![src@[i as int]]);
            assert(out@ =~= chunk_prefix(src@, i + 1 as int));
        }
        i = i + 1;
    }
    out
}

/// The displayed form of a schema id: the chunked base58 string of the
/// payload, optionally wrapped in the URN namespace and optionally followed
/// by the `#`-separated mnemonic suffix.
pub open spec fn spec_display(p: Seq<u8>, urn: bool, mnemonic: bool) -> Seq<char> {
    (if urn {
        urn_prefix() + sc_prefix()
    } else {
        Seq::empty()
    }) + chunk(base58_of(p)) + (if mnemonic {
        seq!['#'] + baid58_mnemonic(sc_hri(), p)
    } else {
        Seq::empty()
    })
}

impl SchemaId {
    /// Raw 32 commitment bytes.
    pub fn to_byte_array(&self) -> (r: [u8; 32])
        ensures
            r == self.0,
    {
        self.0
    }

    /// Constructs the id from raw commitment bytes.
    pub fn from_byte_array(bytes: [u8; 32]) -> (r: SchemaId)
        ensures
            r.0 == bytes,
    {
        SchemaId(bytes)
    }

    /// The three-word mnemonic of this id's checksum.
    pub fn to_mnemonic(&self) -> (r: String)
        ensures
            r@ == baid58_mnemonic(sc_hri(), self.0@),
    {
        let r = baid58_mnemonic_str("sc", &self.0);
        proof {
            reveal_strlit("sc");
            assert("sc"@ =~= sc_hri());
        }
        r
    }

    /// Renders this id: `urn` wraps the string into the URN namespace and
    /// `mnemonic` appends the `#`-separated checksum mnemonic. The id's own
    /// textual body is the chunked base58 form of the 32 payload bytes.
    pub fn display(&self, urn: bool, mnemonic: bool) -> (r: String)
        ensures
            r@ == spec_display(self.0@, urn, mnemonic),
            base58_of(self.0@).len() <= 45,
            forall|i: int|
                0 <= i < base58_of(self.0@).len() ==> is_b58_char(#[trigger] base58_of(self.0@)[i]),
            forall|i: int|
                0 <= i < baid58_mnemonic(sc_hri(), self.0@).len() ==> is_mnemonic_char(
                    #[trigger] baid58_mnemonic(sc_hri(), self.0@)[i],
                ),
    {
        let b58 = base58_str(&self.0);
        let chunked = chunk_string(&b58);
        let m = baid58_mnemonic_str("sc", &self.0);
        proof {
            reveal_strlit("sc");
            assert("sc"@ =~= sc_hri());
            reveal_strlit("urn:lnp-bp:");
            reveal_strlit("sc:");
            reveal_strlit("#");
            assert("urn:lnp-bp:"@ =~= urn_prefix());
            assert("sc:"@ =~= sc_prefix());
            assert("#"@ =~= seq!['#']);
        }
        let mut out = String::new();
        if urn {
            out.append("urn:lnp-bp:");
            out.append("sc:");
        }
        out.append(chunked.as_str());
        if mnemonic {
            out.append("#");
            out.append(m.as_str());
        }
        proof {
            assert(out@ =~= spec_display(self.0@, urn, mnemonic));
        }
        out
    }
}

/// `s` with every dash removed.
pub open spec fn strip_dashes(s: Seq<char>) -> Seq<char>
    decreases s.len(),
{
    if s.len() == 0 {
        Seq::empty()
    } else {
        strip_dashes(s.drop_last()) + (if s.last() == '-' {
            Seq::<char>::empty()
        } else {
            seq![s.last()]
        })
    }
}

/// Removing dashes distributes over concatenation.
proof fn lemma_strip_add(a: Seq<char>, b: Seq<char>)
    ensures
        strip_dashes(a + b) == strip_dashes(a) + strip_dashes(b),
    decreases b.len(),
{
    if b.len() == 0 {
        assert(a + b =~= a);
        assert(strip_dashes(a) + strip_dashes(b) =~= strip_dashes(a));
    } else {
        lemma_strip_add(a, b.drop_last());
        assert((a + b).drop_last() =~= a + b.drop_last());
        assert((a + b).last() == b.last());
        assert(strip_dashes(a + b) =~= strip_dashes(a) + strip_dashes(b));
    }
}

/// Chunking inserts only dashes: removing them restores the original
/// string, provided it held no dash itself.
proof fn lemma_strip_chunk_prefix(s: Seq<char>, n: int)
    requires
        0 <= n <= s.len(),
        forall|i: int| 0 <= i < s.len() ==> s[i] != '-',
    ensures
        strip_dashes(chunk_prefix(s, n)) == s.take(n),
    decreases n,
{
    if n <= 0 {
        assert(chunk_prefix(s, 0) =~= Seq::<char>::empty());
        assert(s.take(0) =~= Seq::<char>::empty());
        assert(strip_dashes(chunk_prefix(s, n)) =~= s.take(n));
    } else {
        lemma_strip_chunk_prefix(s, n - 1);
        let c = s[n - 1];
        let piece = if is_chunk_boundary(n - 1) {
            seq!['-', c]
        } else {
            seq![c]
        };
        lemma_strip_add(chunk_prefix(s, n - 1), piece);
        assert(strip_dashes(Seq::<char>::empty()) =~= Seq::<char>::empty());
        assert(seq!['-', c].drop_last() =~= seq!['-']);
        assert(seq!['-'].drop_last() =~= Seq::<char>::empty());
        assert(strip_dashes(seq!['-']) =~= Seq::<char>::empty());
        assert(strip_dashes(seq!['-', c]) =~= seq![c]);
        assert(seq![c].drop_last() =~= Seq::<char>::empty());
        assert(strip_dashes(seq![c]) =~= seq![c]);
        assert(s.take(n) =~= s.take(n - 1) + seq![c]);
        assert(strip_dashes(chunk_prefix(s, n)) =~= s.take(n));
    }
}

/// Every character of a chunked string is a dash or satisfies whatever all
/// characters of the unchunked string satisfy.
proof fn lemma_chunk_chars(s: Seq<char>, n: int, pred: spec_fn(char) -> bool)
    requires
        0 <= n <= s.len(),
        forall|i: int| 0 <= i < s.len() ==> pred(#[trigger] s[i]),
    ensures
        forall|i: int|
            0 <= i < chunk_prefix(s, n).len() ==> (pred(#[trigger] chunk_prefix(s, n)[i])
                || chunk_prefix(s, n)[i] == '-'),
    decreases n,
{
    if n <= 0 {
    } else {
        lemma_chunk_chars(s, n - 1, pred);
        assert forall|i: int| 0 <= i < chunk_prefix(s, n).len() implies (pred(
            #[trigger] chunk_prefix(s, n)[i],
        ) || chunk_prefix(s, n)[i] == '-') by {
            if i < chunk_prefix(s, n - 1).len() {
                assert(chunk_prefix(s, n)[i] == chunk_prefix(s, n - 1)[i]);
            }
        }
    }
}

/// Whether the literal stands at position `at` of `s`.
fn has_lit_at(s: &str, slen: usize, at: usize, lit: &str, litlen: usize) -> (r: bool)
    requires
        slen == s@.len(),
        litlen == lit@.len(),
        at + litlen <= slen,
    ensures
        r == (s@.subrange(at as int, at + litlen) == lit@),
{
    let mut j: usize = 0;
    while j < litlen
        invariant
            j <= litlen,
            slen == s@.len(),
            litlen == lit@.len(),
            at + litlen <= slen,
            forall|k: int| 0 <= k < j ==> s@[at + k] == lit@[k],
        decreases litlen - j,
    {
        if s.get_char(at + j) != lit.get_char(j) {
            proof {
                assert(s@.subrange(at as int, at + litlen)[j as int] == s@[at + j]);
            }
            return false;
        }
        j = j + 1;
    }
    proof {
        assert(s@.subrange(at as int, at + litlen) =~= lit@);
    }
    true
}

/// The substring `[from, to)` of `s` with every dash removed.
fn strip_range(s: &str, from: usize, to: usize) -> (r: String)
    requires
        from <= to <= s@.len(),
    ensures
        r@ == strip_dashes(s@.subrange(from as int, to as int)),
{
    let mut out = String::new();
    let mut i: usize = from;
    proof {
        assert(s@.subrange(from as int, from as int) =~= Seq::<char>::empty());
    }
    while i < to
        invariant
            from <= i <= to,
            to <= s@.len(),
            out@ =~= strip_dashes(s@.subrange(from as int, i as int)),
        decreases to - i,
    {
        if s.get_char(i) != '-' {
            out.append(s.substring_char(i, i + 1));
            proof {
                assert(s@.subrange(i as int, i + 1 as int) =~= seq![s@[i as int]]);
            }
        }
        proof {
            let pre = s@.subrange(from as int, i as int);
            let cur = s@.subrange(from as int, i + 1 as int);
            assert(cur.drop_last() =~= pre);
            assert(cur.last() == s@[i as int]);
            assert(out@ =~= strip_dashes(cur));
        }
        i = i + 1;
    }
    out
}

/// Copies a 32-byte vector into an array.
fn bytes32_from_vec(v: &Vec<u8>) -> (r: [u8; 32])
    requires
        v@.len() == 32,
    ensures
        r@ == v@,
{
    let mut arr = [0u8; 32];
    let mut i: usize = 0;
    while i < 32
        invariant
            i <= 32,
            v@.len() == 32,
            forall|j: int| 0 <= j < i ==> arr@[j] == v@[j],
        decreases 32 - i,
    {
        arr[i] = v[i];
        i = i + 1;
    }
    proof {
        assert(arr@ =~= v@);
    }
    arr
}

/// The string after the optional URN namespace and entity prefixes are
/// removed, exactly as the parser removes them.
pub open spec fn strip_prefixes(s: Seq<char>) -> Seq<char> {
    let s1 = if s.len() >= 11 && s.subrange(0, 11) == urn_prefix() {
        s.skip(11)
    } else {
        s
    };
    if s1.len() >= 3 && s1.subrange(0, 3) == sc_prefix() {
        s1.skip(3)
    } else {
        s1
    }
}

/// Index of the first `#` of `s`, or its length if there is none.
pub open spec fn first_hash(s: Seq<char>) -> int
    decreases s.len(),
{
    if s.len() == 0 {
        0
    } else if s[0] == '#' {
        0
    } else {
        1 + first_hash(s.drop_first())
    }
}

/// The payload section of an id string: what stands between the prefixes
/// and the first `#`.
pub open spec fn payload_section(s: Seq<char>) -> Seq<char> {
    strip_prefixes(s).take(first_hash(strip_prefixes(s)))
}

/// The mnemonic section of an id string: what follows the first `#` after
/// the prefixes, if any.
pub open spec fn mnemonic_section(s: Seq<char>) -> Option<Seq<char>> {
    let core = strip_prefixes(s);
    if first_hash(core) < core.len() {
        Some(core.skip(first_hash(core) + 1))
    } else {
        None
    }
}

/// A scan that saw no `#` before `k` and one at `k` (or ran off the end)
/// found the first `#`.
proof fn lemma_first_hash(t: Seq<char>, k: int)
    requires
        0 <= k <= t.len(),
        forall|j: int| 0 <= j < k ==> t[j] != '#',
        k < t.len() ==> t[k] == '#',
    ensures
        first_hash(t) == k,
    decreases k,
{
    if k == 0 {
    } else {
        assert(t[0] != '#');
        assert forall|j: int| 0 <= j < k - 1 implies t.drop_first()[j] != '#' by {
            assert(t.drop_first()[j] == t[j + 1]);
        }
        if k - 1 < t.drop_first().len() {
            assert(t.drop_first()[k - 1] == t[k]);
        }
        lemma_first_hash(t.drop_first(), k - 1);
    }
}

/// Removing dashes never lengthens a string.
proof fn lemma_strip_len_le(x: Seq<char>)
    ensures
        strip_dashes(x).len() <= x.len(),
    decreases x.len(),
{
    if x.len() > 0 {
        lemma_strip_len_le(x.drop_last());
    }
}

/// A string whose dashes were removed without shortening it had none.
proof fn lemma_strip_same_len(x: Seq<char>)
    requires
        strip_dashes(x).len() == x.len(),
    ensures
        strip_dashes(x) == x,
    decreases x.len(),
{
    if x.len() == 0 {
        assert(strip_dashes(x) =~= x);
    } else {
        lemma_strip_len_le(x.drop_last());
        if x.last() == '-' {
            assert(false);
        } else {
            lemma_strip_same_len(x.drop_last());
            assert(strip_dashes(x) =~= x);
        }
    }
}

/// Locates the parser's cut points in any input: the prefix length the
/// parser strips, the first `#` it finds, and the payload and mnemonic
/// sections those cuts produce.
proof fn lemma_parse_sections(s: Seq<char>, took_urn: bool, took_sc: bool, idx: int, h: int)
    requires
        took_urn == (s.len() >= 11 && s.subrange(0, 11) == urn_prefix()),
        took_sc == ((if took_urn {
            11int
        } else {
            0int
        }) + 3 <= s.len() && s.subrange(
            (if took_urn {
                11int
            } else {
                0int
            }),
            (if took_urn {
                11int
            } else {
                0int
            }) + 3,
        ) == sc_prefix()),
        idx == (if took_urn {
            11int
        } else {
            0int
        }) + (if took_sc {
            3int
        } else {
            0int
        }),
        idx <= h <= s.len(),
        forall|j: int| idx <= j < h ==> s[j] != '#',
        h < s.len() ==> s[h] == '#',
    ensures
        strip_prefixes(s) == s.skip(idx),
        payload_section(s) == s.subrange(idx, h),
        mnemonic_section(s) == (if h < s.len() {
            Some(s.subrange(h + 1, s.len() as int))
        } else {
            None::<Seq<char>>
        }),
{
    let idx0: int = if took_urn {
        11int
    } else {
        0int
    };
    let s1 = if s.len() >= 11 && s.subrange(0, 11) == urn_prefix() {
        s.skip(11)
    } else {
        s
    };
    assert(s.skip(0) =~= s);
    assert(s1 =~= s.skip(idx0));
    if idx0 + 3 <= s.len() {
        assert(s1.subrange(0, 3) =~= s.subrange(idx0, idx0 + 3));
    }
    assert((s1.len() >= 3 && s1.subrange(0, 3) == sc_prefix()) == took_sc);
    if took_sc {
        assert(s1.skip(3) =~= s.skip(idx));
    }
    assert(strip_prefixes(s) =~= s.skip(idx));
    assert forall|j: int| 0 <= j < h - idx implies s.skip(idx)[j] != '#' by {
        assert(s.skip(idx)[j] == s[idx + j]);
    }
    if h - idx < s.skip(idx).len() {
        assert(s.skip(idx)[h - idx] == s[h]);
    }
    lemma_first_hash(s.skip(idx), h - idx);
    assert(s.skip(idx).take(h - idx) =~= s.subrange(idx, h));
    if h < s.len() {
        assert(s.skip(idx).skip(h - idx + 1) =~= s.subrange(h + 1, s.len() as int));
    }
}

/// The hypotheses under which a string is a displayed form of payload `p`:
/// the shape itself plus the alphabet facts of the payload's base58 string
/// and mnemonic.
pub open spec fn displays(s: Seq<char>, p: Seq<u8>, urn: bool, mnemonic: bool) -> bool {
    &&& p.len() == 32
    &&& s == spec_display(p, urn, mnemonic)
    &&& base58_of(p).len() <= 45
    &&& forall|i: int| 0 <= i < base58_of(p).len() ==> is_b58_char(#[trigger] base58_of(p)[i])
    &&& forall|i: int|
        0 <= i < baid58_mnemonic(sc_hri(), p).len() ==> is_mnemonic_char(
            #[trigger] baid58_mnemonic(sc_hri(), p)[i],
        )
}

impl SchemaId {
    /// Parses a displayed schema id: the bare chunked (or unchunked)
    /// base58 string, optionally prefixed by the URN namespace and
    /// optionally carrying a `#`-separated mnemonic suffix, which is then
    /// checked against the payload. Malformed input is reported as a
    /// structured error, never a panic. Every displayed form of an id
    /// parses back to that id.
    #[verifier::rlimit(50)]
    pub fn from_str(s: &str) -> (r: Result<SchemaId, SchemaIdParseError>)
        ensures
            forall|p: Seq<u8>, urn: bool, mnemonic: bool|
                #![trigger spec_display(p, urn, mnemonic)]
                displays(s@, p, urn, mnemonic) ==> (r is Ok && r->Ok_0.0@ == p),
            r matches Ok(id) ==> strip_dashes(payload_section(s@)) == base58_of(id.0@),
            (r is Ok && (mnemonic_section(s@) is Some)) ==> mnemonic_section(s@)->0
                == baid58_mnemonic(sc_hri(), r->Ok_0.0@),
            (r is Ok && payload_section(s@) != strip_dashes(payload_section(s@)))
                ==> payload_section(s@) == chunk(strip_dashes(payload_section(s@))),
    {
        proof {
            reveal_strlit("urn:lnp-bp:");
            reveal_strlit("sc:");
            assert("urn:lnp-bp:"@ =~= urn_prefix());
            assert("sc:"@ =~= sc_prefix());
        }
        let slen = s.unicode_len();
        let mut idx: usize = 0;
        let took_urn = slen >= 11 && has_lit_at(s, slen, 0, "urn:lnp-bp:", 11);
        if took_urn {
            idx = 11;
        }
        let took_sc = idx + 3 <= slen && has_lit_at(s, slen, idx, "sc:", 3);
        if took_sc {
            idx = idx + 3;
        }
        let mut h: usize = idx;
        while h < slen
            invariant_except_break
                idx <= h <= slen,
                slen == s@.len(),
                forall|j: int| idx <= j < h ==> s@[j] != '#',
            ensures
                idx <= h <= slen,
                slen == s@.len(),
                forall|j: int| idx <= j < h ==> s@[j] != '#',
                h < slen ==> s@[h as int] == '#',
            decreases slen - h,
        {
            if s.get_char(h) == '#' {
                break;
            }
            h = h + 1;
        }
        let stripped = strip_range(s, idx, h);
        let value_len: usize = h - idx;
        let strip_len = stripped.as_str().unicode_len();
        if strip_len > 45 {
            // longer than any base58 string of 32 bytes: reject before the
            // decoder, whose buffers are bounded
            proof {
                assert forall|p: Seq<u8>, urn: bool, mnemonic: bool|
                    displays(s@, p, urn, mnemonic) implies false by {
                    lemma_parse_boundaries(
                        s@,
                        p,
                        urn,
                        mnemonic,
                        took_urn,
                        took_sc,
                        idx as int,
                        h as int,
                    );
                    lemma_strip_chunk_prefix(base58_of(p), base58_of(p).len() as int);
                    assert(base58_of(p).take(base58_of(p).len() as int) =~= base58_of(p));
                    assert(stripped@ == base58_of(p));
                }
            }
            return Err(SchemaIdParseError::InvalidBase58Length);
        }
        if strip_len != value_len {
            // dashes were removed: the separators must stand exactly at
            // the canonical chunk positions
            let rechunk = chunk_string(&stripped);
            let value = String::from_str(s.substring_char(idx, h));
            proof {
                assert(value@ == s@.subrange(idx as int, h as int));
            }
            if value != rechunk {
                proof {
                    assert forall|p: Seq<u8>, urn: bool, mnemonic: bool|
                        displays(s@, p, urn, mnemonic) implies false by {
                        lemma_parse_boundaries(
                            s@,
                            p,
                            urn,
                            mnemonic,
                            took_urn,
                            took_sc,
                            idx as int,
                            h as int,
                        );
                        lemma_strip_chunk_prefix(base58_of(p), base58_of(p).len() as int);
                        assert(base58_of(p).take(base58_of(p).len() as int) =~= base58_of(p));
                        assert(stripped@ == base58_of(p));
                        assert(value@ =~= chunk(base58_of(p)));
                    }
                }
                return Err(SchemaIdParseError::InvalidChunking);
            }
            proof {
                assert(value@ == rechunk@);
                assert(s@.subrange(idx as int, h as int) == chunk(stripped@));
            }
        }
        match base58_decode(stripped.as_str()) {
            Err(e) => {
                proof {
                    assert forall|p: Seq<u8>, urn: bool, mnemonic: bool|
                        displays(s@, p, urn, mnemonic) implies false by {
                        lemma_parse_boundaries(
                            s@,
                            p,
                            urn,
                            mnemonic,
                            took_urn,
                            took_sc,
                            idx as int,
                            h as int,
                        );
                        lemma_strip_chunk_prefix(base58_of(p), base58_of(p).len() as int);
                        assert(base58_of(p).take(base58_of(p).len() as int) =~= base58_of(p));
                        assert(stripped@ == base58_of(p));
                    }
                }
                Err(e)
            },
            Ok(v) => {
                if v.len() != 32 {
                    proof {
                        assert forall|p: Seq<u8>, urn: bool, mnemonic: bool|
                            displays(s@, p, urn, mnemonic) implies false by {
                            lemma_parse_boundaries(
                                s@,
                                p,
                                urn,
                                mnemonic,
                                took_urn,
                                took_sc,
                                idx as int,
                                h as int,
                            );
                            lemma_strip_chunk_prefix(base58_of(p), base58_of(p).len() as int);
                            assert(base58_of(p).take(base58_of(p).len() as int) =~= base58_of(p));
                            assert(stripped@ == base58_of(p));
                        }
                    }
                    return Err(SchemaIdParseError::InvalidLen(v.len()));
                }
                let payload = bytes32_from_vec(&v);
                if h < slen {
                    let m_given = String::from_str(s.substring_char(h + 1, slen));
                    let m_want = baid58_mnemonic_str("sc", &payload);
                    proof {
                        reveal_strlit("sc");
                        assert("sc"@ =~= sc_hri());
                    }
                    proof {
                        assert(m_given@ == s@.subrange(h + 1 as int, slen as int));
                    }
                    if m_given != m_want {
                        proof {
                            assert forall|p: Seq<u8>, urn: bool, mnemonic: bool|
                                displays(s@, p, urn, mnemonic) implies false by {
                                lemma_parse_boundaries(
                                    s@,
                                    p,
                                    urn,
                                    mnemonic,
                                    took_urn,
                                    took_sc,
                                    idx as int,
                                    h as int,
                                );
                                lemma_strip_chunk_prefix(base58_of(p), base58_of(p).len() as int);
                                assert(base58_of(p).take(base58_of(p).len() as int) =~= base58_of(
                                    p,
                                ));
                                assert(stripped@ == base58_of(p));
                                assert(payload@ == p);
                                assert(mnemonic);
                                assert(m_given@ == baid58_mnemonic(sc_hri(), p));
                            }
                        }
                        return Err(SchemaIdParseError::InvalidMnemonic);
                    }
                    proof {
                        assert(m_given@ == m_want@);
                        assert(s@.subrange(h + 1 as int, slen as int) == baid58_mnemonic(
                            sc_hri(),
                            payload@,
                        ));
                    }
                }
                proof {
                    lemma_parse_sections(s@, took_urn, took_sc, idx as int, h as int);
                    assert(strip_dashes(payload_section(s@)) == stripped@);
                    assert(stripped@ == base58_of(payload@));
                    if h < slen {
                        assert(mnemonic_section(s@) == Some(s@.subrange(h + 1 as int, slen as int)));
                    } else {
                        assert(mnemonic_section(s@) is None);
                    }
                    if payload_section(s@) != strip_dashes(payload_section(s@)) {
                        if strip_len == value_len {
                            lemma_strip_same_len(payload_section(s@));
                            assert(false);
                        }
                        assert(payload_section(s@) == chunk(strip_dashes(payload_section(s@))));
                    }
                    assert forall|p: Seq<u8>, urn: bool, mnemonic: bool|
                        displays(s@, p, urn, mnemonic) implies payload@ == p by {
                        lemma_parse_boundaries(
                            s@,
                            p,
                            urn,
                            mnemonic,
                            took_urn,
                            took_sc,
                            idx as int,
                            h as int,
                        );
                        lemma_strip_chunk_prefix(base58_of(p), base58_of(p).len() as int);
                        assert(base58_of(p).take(base58_of(p).len() as int) =~= base58_of(p));
                        assert(stripped@ == base58_of(p));
                    }
                }
                Ok(SchemaId(payload))
            },
        }
    }
}

/// Locates the parser's cut points inside a displayed string: the detected
/// prefix length is exactly the displayed prefix, the first `#` at or
/// after it is exactly the end of the chunked payload, and the parts cut
/// there are the chunked base58 string and the mnemonic.
proof fn lemma_parse_boundaries(
    s: Seq<char>,
    p: Seq<u8>,
    urn: bool,
    mnemonic: bool,
    took_urn: bool,
    took_sc: bool,
    idx: int,
    h: int,
)
    requires
        displays(s, p, urn, mnemonic),
        took_urn == (s.len() >= 11 && s.subrange(0, 11) == urn_prefix()),
        took_sc == ((if took_urn {
            11int
        } else {
            0int
        }) + 3 <= s.len() && s.subrange(
            (if took_urn {
                11int
            } else {
                0int
            }),
            (if took_urn {
                11int
            } else {
                0int
            }) + 3,
        ) == sc_prefix()),
        idx == (if took_urn {
            11int
        } else {
            0int
        }) + (if took_sc {
            3int
        } else {
            0int
        }),
        idx <= h <= s.len(),
        forall|j: int| idx <= j < h ==> s[j] != '#',
        h < s.len() ==> s[h] == '#',
    ensures
        idx == (if urn {
            14int
        } else {
            0int
        }),
        h == idx + chunk(base58_of(p)).len(),
        s.subrange(idx, h) == chunk(base58_of(p)),
        mnemonic == (h < s.len()),
        mnemonic ==> s.subrange(h + 1, s.len() as int) == baid58_mnemonic(sc_hri(), p),
{
    let b = base58_of(p);
    let c = chunk(b);
    let m = baid58_mnemonic(sc_hri(), p);
    let pre = if urn {
        urn_prefix() + sc_prefix()
    } else {
        Seq::<char>::empty()
    };
    let tail = if mnemonic {
        seq!['#'] + m
    } else {
        Seq::<char>::empty()
    };
    assert(s == pre + c + tail);
    lemma_chunk_chars(b, b.len() as int, |ch: char| is_b58_char(ch));
    assert(forall|i: int| 0 <= i < c.len() ==> (is_b58_char(#[trigger] c[i]) || c[i] == '-'));
    // the URN prefix is detected exactly when it was displayed
    if urn {
        assert(s.len() >= 14);
        assert(s.subrange(0, 11) =~= urn_prefix());
        assert(took_urn);
        assert(s.subrange(11, 14) =~= sc_prefix());
        assert(took_sc);
        assert(idx == 14);
    } else {
        assert(s == c + tail);
        if s.len() >= 11 {
            // position 3 of the string is never a colon outside a URN
            if 3 < c.len() {
                assert(s[3] == c[3]);
                assert(s[3] != ':');
            } else if mnemonic {
                if 3 == c.len() {
                    assert(s[3] == '#');
                } else {
                    assert(s[3] == m[3 - c.len() - 1]);
                    assert(is_mnemonic_char(s[3]));
                }
                assert(s[3] != ':');
            } else {
                assert(s.len() == c.len());
                assert(false);
            }
            assert(urn_prefix()[3] == ':');
            if s.subrange(0, 11) == urn_prefix() {
                assert(s.subrange(0, 11)[3] == s[3]);
                assert(false);
            }
        }
        assert(!took_urn);
        if 0 + 3 <= s.len() {
            if 2 < c.len() {
                assert(s[2] == c[2]);
                assert(s[2] != ':');
            } else if mnemonic {
                if 2 == c.len() {
                    assert(s[2] == '#');
                } else {
                    assert(s[2] == m[2 - c.len() - 1]);
                    assert(is_mnemonic_char(s[2]));
                }
                assert(s[2] != ':');
            } else {
                assert(s.len() == c.len());
                assert(false);
            }
            assert(sc_prefix()[2] == ':');
            if s.subrange(0, 3) == sc_prefix() {
                assert(s.subrange(0, 3)[2] == s[2]);
                assert(false);
            }
        }
        assert(!took_sc);
        assert(idx == 0);
    }
    assert(pre.len() == idx);
    // the first `#` at or after the prefix ends the chunked payload
    assert(forall|i: int| 0 <= i < c.len() ==> #[trigger] c[i] != '#');
    if mnemonic {
        assert(s[idx + c.len()] == '#');
        if h > idx + c.len() {
            assert(s[idx + c.len()] != '#');
            assert(false);
        }
        if h < idx + c.len() {
            assert(s[h] == c[h - idx]);
            assert(false);
        }
        assert(h == idx + c.len());
        assert(h < s.len());
        assert(s.subrange(h + 1, s.len() as int) =~= m);
    } else {
        assert(s.len() == idx + c.len());
        if h < s.len() {
            assert(s[h] == c[h - idx]);
            assert(false);
        }
        assert(h == idx + c.len());
    }
    assert(s.subrange(idx, h) =~= c);
}

/// Display/parse round trip: parsing any displayed form of a schema id —
/// full URN or bare chunked string, with or without the mnemonic suffix —
/// returns the id itself.
pub fn display_parse_round_trip(id: &SchemaId, urn: bool, mnemonic: bool) -> (r: Result<
    SchemaId,
    SchemaIdParseError,
>)
    ensures
        r == Ok::<SchemaId, SchemaIdParseError>(*id),
{
    let s = id.display(urn, mnemonic);
    let r = SchemaId::from_str(s.as_str());
    proof {
        assert(displays(s@, id.0@, urn, mnemonic));
        assert(r is Ok && r->Ok_0.0@ == id.0@);
        assert(r->Ok_0.0 =~= id.0);
        assert(r->Ok_0 == *id);
    }
    r
}


} // verus!
