//! Package identity, queries, and the binary record an index returns.
//!
//! A `Package` record travels as bytes: two length-prefixed UTF-8 strings
//! naming the package, a counted sequence of dependency queries (each a
//! name pair plus a version constraint), and an opaque extractor blob
//! interpreted only by the installer collaborator.

use vstd::prelude::*;

use crate::bytes::{
    lemma_u16_be_bytes_roundtrip, lemma_u32_be_bytes_roundtrip, spec_u16_from_be_bytes,
    spec_u16_to_be_bytes, spec_u32_from_be_bytes, spec_u32_to_be_bytes, u16_read_be, u16_write_be,
    u32_read_be, u32_write_be,
};
use crate::condition::{spec_deserialize, spec_serialize, DeserializationError, VersionCondition};
use crate::condition::lemma_spec_deserialize_consumed;
use vstd::slice::{slice_subrange, slice_to_vec};
use vstd::string::StringSliceAdditionalSpecFns;
use vstd::utf8::{
    decode_utf8, encode_utf8, encode_utf8_decode_utf8, encode_utf8_valid_utf8, valid_utf8,
};

verus! {

broadcast use vstd::slice::group_slice_axioms;

/// Identifies a package family: a name together with a variant,
/// independent of any version.
#[derive(PartialEq, Hash, Debug)]
pub struct PackageName {
    pub name: String,
    pub variant: String,
}

/// The mathematical value of a [`PackageName`]: its two strings as
/// character sequences.
#[verifier::ext_equal]
pub struct PackageNameView {
    pub name: Seq<char>,
    pub variant: Seq<char>,
}

impl View for PackageName {
    type V = PackageNameView;

    open spec fn view(&self) -> PackageNameView {
        PackageNameView { name: self.name@, variant: self.variant@ }
    }
}

impl Clone for PackageName {
    /// A copy denoting the same name.
    fn clone(&self) -> (r: Self)
        ensures
            r@ == self@,
    {
        PackageName { name: self.name.clone(), variant: self.variant.clone() }
    }
}

/// A package query.
///
/// In other words, a package name together with a version condition.
#[derive(PartialEq, Hash, Debug)]
pub struct PackageQuery {
    pub version: VersionCondition,
    pub name: PackageName,
}

/// The mathematical value of a [`PackageQuery`].
#[verifier::ext_equal]
pub struct PackageQueryView {
    pub version: VersionCondition,
    pub name: PackageNameView,
}

impl View for PackageQuery {
    type V = PackageQueryView;

    open spec fn view(&self) -> PackageQueryView {
        PackageQueryView { version: self.version, name: self.name@ }
    }
}

impl Clone for PackageQuery {
    /// A copy denoting the same query.
    fn clone(&self) -> (r: Self)
        ensures
            r@ == self@,
    {
        PackageQuery { version: self.version.clone(), name: self.name.clone() }
    }
}

/// A package record as produced by a successful index response: its
/// name, its dependency queries in order, and the opaque payload the
/// external installer interprets.
#[derive(PartialEq, Hash, Debug)]
pub struct Package {
    pub name: PackageName,
    pub dependencies: Vec<PackageQuery>,
    pub extractor: Vec<u8>,
}

/// The mathematical value of a [`Package`].
#[verifier::ext_equal]
pub struct PackageView {
    pub name: PackageNameView,
    pub dependencies: Seq<PackageQueryView>,
    pub extractor: Seq<u8>,
}

impl View for Package {
    type V = PackageView;

    open spec fn view(&self) -> PackageView {
        PackageView {
            name: self.name@,
            dependencies: self.dependencies@.map_values(|q: PackageQuery| q@),
            extractor: self.extractor@,
        }
    }
}

impl Clone for Package {
    /// A copy denoting the same record.
    fn clone(&self) -> (r: Self)
        ensures
            r@ == self@,
    {
        let mut deps: Vec<PackageQuery> = Vec::new();
        let mut i: usize = 0;
        while i < self.dependencies.len()
            invariant
                i <= self.dependencies.len(),
                deps@.len() == i,
                forall|j: int| 0 <= j < i ==> deps@[j]@ == self.dependencies@[j]@,
            decreases self.dependencies.len() - i,
        {
            deps.push(self.dependencies[i].clone());
            i += 1;
        }
        let r = Package {
            name: self.name.clone(),
            dependencies: deps,
            extractor: self.extractor.clone(),
        };
        proof {
            assert(r@.dependencies =~= self@.dependencies);
        }
        r
    }
}

/// The encoding of one string field: a 16-bit big-endian byte count,
/// then that many UTF-8 bytes.
pub open spec fn spec_encode_str(s: Seq<char>) -> Seq<u8>
    recommends
        str_fits(s),
{
    spec_u16_to_be_bytes(encode_utf8(s).len() as u16) + encode_utf8(s)
}

/// Whether a string's UTF-8 form fits behind a 16-bit length prefix.
pub open spec fn str_fits(s: Seq<char>) -> bool {
    encode_utf8(s).len() <= 0xFFFF
}

/// The encoding of one dependency query: the two name strings, then the
/// version constraint grammar.
pub open spec fn spec_encode_query(q: PackageQueryView) -> Seq<u8> {
    spec_encode_str(q.name.name) + spec_encode_str(q.name.variant) + spec_serialize(q.version)
}

/// The concatenated encodings of a sequence of dependency queries.
pub open spec fn spec_encode_queries(qs: Seq<PackageQueryView>) -> Seq<u8>
    decreases qs.len(),
{
    if qs.len() == 0 {
        Seq::empty()
    } else {
        spec_encode_query(qs[0]) + spec_encode_queries(qs.drop_first())
    }
}

/// The encoding of a whole package record.
pub open spec fn spec_encode_package(p: PackageView) -> Seq<u8> {
    spec_encode_str(p.name.name) + spec_encode_str(p.name.variant) + spec_u16_to_be_bytes(
        p.dependencies.len() as u16,
    ) + spec_encode_queries(p.dependencies) + spec_u32_to_be_bytes(p.extractor.len() as u32)
        + p.extractor
}

/// Whether every variable-length field of the record fits behind its
/// fixed-width length prefix.
pub open spec fn bounded(p: PackageView) -> bool {
    &&& str_fits(p.name.name)
    &&& str_fits(p.name.variant)
    &&& p.dependencies.len() <= 0xFFFF
    &&& (forall|i: int|
        0 <= i < p.dependencies.len() ==> str_fits(#[trigger] p.dependencies[i].name.name)
            && str_fits(p.dependencies[i].name.variant))
    &&& p.extractor.len() <= 0xFFFF_FFFFu64
}

/// Decoding one string field from the front of a stream: the characters
/// and the bytes consumed, or the violation hit first.
pub open spec fn spec_decode_str(s: Seq<u8>) -> Result<(Seq<char>, int), DeserializationError> {
    if s.len() < 2 {
        Err(DeserializationError::ShortRead)
    } else {
        let n = spec_u16_from_be_bytes(s.subrange(0, 2)) as int;
        if s.len() < 2 + n {
            Err(DeserializationError::ShortRead)
        } else if !valid_utf8(s.subrange(2, 2 + n)) {
            Err(DeserializationError::InvalidString)
        } else {
            Ok((decode_utf8(s.subrange(2, 2 + n)), 2 + n))
        }
    }
}

/// Decoding one dependency query from the front of a stream.
pub open spec fn spec_decode_query(s: Seq<u8>) -> Result<
    (PackageQueryView, int),
    DeserializationError,
> {
    match spec_decode_str(s) {
        Ok((nm, n1)) => match spec_decode_str(s.skip(n1)) {
            Ok((vr, n2)) => match spec_deserialize(s.skip(n1 + n2)) {
                Ok((c, n3)) => Ok(
                    (
                        PackageQueryView {
                            version: c,
                            name: PackageNameView { name: nm, variant: vr },
                        },
                        n1 + n2 + n3,
                    ),
                ),
                Err(e) => Err(e),
            },
            Err(e) => Err(e),
        },
        Err(e) => Err(e),
    }
}

/// Decoding `count` consecutive dependency queries from the front of a
/// stream.
pub open spec fn spec_decode_queries(s: Seq<u8>, count: nat) -> Result<
    (Seq<PackageQueryView>, int),
    DeserializationError,
>
    decreases count,
{
    if count == 0 {
        Ok((Seq::empty(), 0))
    } else {
        match spec_decode_query(s) {
            Ok((q, n)) => if 0 <= n <= s.len() {
                match spec_decode_queries(s.skip(n), (count - 1) as nat) {
                    Ok((qs, m)) => Ok((seq![q] + qs, n + m)),
                    Err(e) => Err(e),
                }
            } else {
                Err(DeserializationError::ShortRead)
            },
            Err(e) => Err(e),
        }
    }
}

/// Decoding a whole package record: the stream must hold exactly one
/// record, with nothing after it.
pub open spec fn spec_load(s: Seq<u8>) -> Result<PackageView, DeserializationError> {
    match spec_decode_str(s) {
        Ok((nm, n1)) => match spec_decode_str(s.skip(n1)) {
            Ok((vr, n2)) => if s.len() < n1 + n2 + 2 {
                Err(DeserializationError::ShortRead)
            } else {
                let count = spec_u16_from_be_bytes(s.subrange(n1 + n2, n1 + n2 + 2)) as nat;
                match spec_decode_queries(s.skip(n1 + n2 + 2), count) {
                    Ok((qs, n3)) => {
                        let o = n1 + n2 + 2 + n3;
                        if s.len() < o + 4 {
                            Err(DeserializationError::ShortRead)
                        } else {
                            let elen = spec_u32_from_be_bytes(s.subrange(o, o + 4)) as int;
                            if s.len() < o + 4 + elen {
                                Err(DeserializationError::ShortRead)
                            } else if s.len() != o + 4 + elen {
                                Err(DeserializationError::TrailingData)
                            } else {
                                Ok(
                                    PackageView {
                                        name: PackageNameView { name: nm, variant: vr },
                                        dependencies: qs,
                                        extractor: s.subrange(o + 4, o + 4 + elen),
                                    },
                                )
                            }
                        }
                    },
                    Err(e) => Err(e),
                }
            },
            Err(e) => Err(e),
        },
        Err(e) => Err(e),
    }
}

/// A successful string decode consumes at least its length prefix and at
/// most the whole stream.
pub proof fn lemma_spec_decode_str_consumed(s: Seq<u8>)
    ensures
        spec_decode_str(s) matches Ok(p) ==> 2 <= p.1 <= s.len(),
{
}

/// A successful query decode consumes at least its parts and at most the
/// whole stream.
pub proof fn lemma_spec_decode_query_consumed(s: Seq<u8>)
    ensures
        spec_decode_query(s) matches Ok(p) ==> 5 <= p.1 <= s.len(),
{
    lemma_spec_decode_str_consumed(s);
    if let Ok((nm, n1)) = spec_decode_str(s) {
        lemma_spec_decode_str_consumed(s.skip(n1));
        if let Ok((vr, n2)) = spec_decode_str(s.skip(n1)) {
            lemma_spec_deserialize_consumed(s.skip(n1 + n2));
        }
    }
}

/// Decoding the encoding of a string, whatever bytes follow, yields the
/// string and consumes exactly the encoding.
pub proof fn lemma_decode_str_encode(c: Seq<char>, rest: Seq<u8>)
    requires
        str_fits(c),
    ensures
        spec_decode_str(spec_encode_str(c) + rest) == Ok::<(Seq<char>, int),
            DeserializationError,
        >((c, spec_encode_str(c).len() as int)),
{
    let b = encode_utf8(c);
    let s = spec_encode_str(c) + rest;
    lemma_u16_be_bytes_roundtrip(b.len() as u16);
    assert(s.subrange(0, 2) =~= spec_u16_to_be_bytes(b.len() as u16));
    assert(s.subrange(2, 2 + b.len() as int) =~= b);
    encode_utf8_valid_utf8(c);
    encode_utf8_decode_utf8(c);
}

/// Decoding the encoding of a query, whatever bytes follow, yields the
/// query and consumes exactly the encoding.
pub proof fn lemma_decode_query_encode(q: PackageQueryView, rest: Seq<u8>)
    requires
        str_fits(q.name.name),
        str_fits(q.name.variant),
    ensures
        spec_decode_query(spec_encode_query(q) + rest) == Ok::<(PackageQueryView, int),
            DeserializationError,
        >((q, spec_encode_query(q).len() as int)),
{
    let e1 = spec_encode_str(q.name.name);
    let e2 = spec_encode_str(q.name.variant);
    let e3 = spec_serialize(q.version);
    let s = spec_encode_query(q) + rest;
    assert(s =~= e1 + (e2 + (e3 + rest)));
    lemma_decode_str_encode(q.name.name, e2 + (e3 + rest));
    assert(s.skip(e1.len() as int) =~= e2 + (e3 + rest));
    lemma_decode_str_encode(q.name.variant, e3 + rest);
    assert(s.skip(e1.len() as int + e2.len() as int) =~= e3 + rest);
    crate::condition::lemma_deserialize_serialize(q.version, rest);
}

/// Decoding the concatenated encodings of a query sequence, whatever
/// bytes follow, yields the sequence and consumes exactly the encodings.
pub proof fn lemma_decode_queries_encode(qs: Seq<PackageQueryView>, rest: Seq<u8>)
    requires
        forall|i: int|
            0 <= i < qs.len() ==> str_fits(#[trigger] qs[i].name.name) && str_fits(
                qs[i].name.variant,
            ),
    ensures
        spec_decode_queries(spec_encode_queries(qs) + rest, qs.len()) == Ok::<(Seq<
            PackageQueryView,
        >, int), DeserializationError>((qs, spec_encode_queries(qs).len() as int)),
    decreases qs.len(),
{
    if qs.len() == 0 {
        assert(spec_encode_queries(qs) + rest =~= rest);
        assert(qs =~= Seq::<PackageQueryView>::empty());
    } else {
        let e0 = spec_encode_query(qs[0]);
        let etail = spec_encode_queries(qs.drop_first());
        let s = spec_encode_queries(qs) + rest;
        assert(s =~= e0 + (etail + rest));
        lemma_decode_query_encode(qs[0], etail + rest);
        assert(s.skip(e0.len() as int) =~= etail + rest);
        lemma_decode_queries_encode(qs.drop_first(), rest);
        assert(seq![qs[0]] + qs.drop_first() =~= qs);
    }
}

/// Loading the stored encoding of a bounded package record yields the
/// record back: the record round-trips through the wire format.
#[verifier::rlimit(60)]
pub proof fn lemma_load_store(p: PackageView)
    requires
        bounded(p),
    ensures
        spec_load(spec_encode_package(p)) == Ok::<PackageView, DeserializationError>(p),
{
    let e1 = spec_encode_str(p.name.name);
    let e2 = spec_encode_str(p.name.variant);
    let ec = spec_u16_to_be_bytes(p.dependencies.len() as u16);
    let eq = spec_encode_queries(p.dependencies);
    let el = spec_u32_to_be_bytes(p.extractor.len() as u32);
    let s = spec_encode_package(p);
    assert(s =~= e1 + (e2 + (ec + (eq + (el + p.extractor)))));
    lemma_decode_str_encode(p.name.name, e2 + (ec + (eq + (el + p.extractor))));
    assert(s.skip(e1.len() as int) =~= e2 + (ec + (eq + (el + p.extractor))));
    lemma_decode_str_encode(p.name.variant, ec + (eq + (el + p.extractor)));
    let o1 = e1.len() as int + e2.len() as int;
    assert(s.subrange(o1, o1 + 2) =~= ec);
    lemma_u16_be_bytes_roundtrip(p.dependencies.len() as u16);
    assert(s.skip(o1 + 2) =~= eq + (el + p.extractor));
    lemma_decode_queries_encode(p.dependencies, el + p.extractor);
    let o2 = o1 + 2 + eq.len() as int;
    assert(s.subrange(o2, o2 + 4) =~= el);
    lemma_u32_be_bytes_roundtrip(p.extractor.len() as u32);
    assert(s.subrange(o2 + 4, o2 + 4 + p.extractor.len() as int) =~= p.extractor);
    let q = PackageView {
        name: PackageNameView { name: p.name.name, variant: p.name.variant },
        dependencies: p.dependencies,
        extractor: s.subrange(o2 + 4, o2 + 4 + p.extractor.len() as int),
    };
    assert(q =~= p);
    assert(spec_load(s) == Ok::<PackageView, DeserializationError>(q));
}

/// Appending one query's encoding extends the sequence encoding.
pub proof fn lemma_encode_queries_push(qs: Seq<PackageQueryView>, q: PackageQueryView)
    ensures
        spec_encode_queries(qs.push(q)) == spec_encode_queries(qs) + spec_encode_query(q),
    decreases qs.len(),
{
    if qs.len() == 0 {
        assert(qs.push(q).drop_first() =~= Seq::<PackageQueryView>::empty());
        assert(qs.push(q)[0] == q);
        assert(spec_encode_queries(Seq::<PackageQueryView>::empty()) == Seq::<u8>::empty());
        assert(spec_encode_queries(qs.push(q)) == spec_encode_query(q) + Seq::<u8>::empty());
        assert(spec_encode_queries(qs.push(q)) =~= spec_encode_queries(qs) + spec_encode_query(q));
    } else {
        assert(qs.push(q).drop_first() =~= qs.drop_first().push(q));
        assert(qs.push(q)[0] == qs[0]);
        lemma_encode_queries_push(qs.drop_first(), q);
        assert(spec_encode_queries(qs.push(q)) == spec_encode_query(qs[0]) + (
        spec_encode_queries(qs.drop_first()) + spec_encode_query(q)));
        assert(spec_encode_queries(qs) == spec_encode_query(qs[0]) + spec_encode_queries(
            qs.drop_first(),
        ));
        assert(spec_encode_queries(qs.push(q)) =~= spec_encode_queries(qs) + spec_encode_query(q));
    }
}

/// Relies on std's `String::from_utf8`: it succeeds exactly on valid
/// UTF-8 input and returns the string those bytes encode.
#[verifier::external_body]
fn bytes_to_string(v: Vec<u8>) -> (r: Option<String>)
    ensures
        r is Some <==> valid_utf8(v@),
        r matches Some(s) ==> s@ == decode_utf8(v@),
{
    match String::from_utf8(v) {
        Ok(s) => Some(s),
        Err(_) => None,
    }
}

/// Appends the length-prefixed UTF-8 encoding of `s` to `out`.
fn write_str(out: &mut Vec<u8>, s: &str)
    requires
        str_fits(s@),
    ensures
        final(out)@ == old(out)@ + spec_encode_str(s@),
{
    let b = s.as_bytes();
    let n = b.len();
    u16_write_be(out, n as u16);
    out.extend_from_slice(b);
    assert(out@ =~= old(out)@ + spec_encode_str(s@));
}

/// Reads one length-prefixed UTF-8 string starting at `pos`, returning
/// it with the number of bytes consumed.
fn read_str(bytes: &[u8], pos: usize) -> (r: Result<(String, usize), DeserializationError>)
    requires
        pos <= bytes@.len(),
    ensures
        (match r {
            Ok((s, n)) => pos + n <= bytes@.len() && spec_decode_str(bytes@.skip(pos as int))
                == Ok::<(Seq<char>, int), DeserializationError>((s@, n as int)),
            Err(e) => spec_decode_str(bytes@.skip(pos as int)) == Err::<(Seq<char>, int),
                DeserializationError,
            >(e),
        }),
{
    let ghost sv = bytes@.skip(pos as int);
    if bytes.len() - pos < 2 {
        return Err(DeserializationError::ShortRead);
    }
    let n = u16_read_be(bytes, pos) as usize;
    proof {
        assert(sv.subrange(0, 2) =~= bytes@.subrange(pos as int, pos + 2));
    }
    if bytes.len() - pos - 2 < n {
        return Err(DeserializationError::ShortRead);
    }
    let sub = slice_subrange(bytes, pos + 2, pos + 2 + n);
    proof {
        assert(sub@ =~= sv.subrange(2, 2 + n as int));
    }
    let v = slice_to_vec(sub);
    match bytes_to_string(v) {
        Some(s) => Ok((s, 2 + n)),
        None => Err(DeserializationError::InvalidString),
    }
}

/// Reads one dependency query starting at `pos`, returning it with the
/// number of bytes consumed.
fn read_query(bytes: &[u8], pos: usize) -> (r: Result<(PackageQuery, usize), DeserializationError>)
    requires
        pos <= bytes@.len(),
    ensures
        (match r {
            Ok((q, n)) => pos + n <= bytes@.len() && spec_decode_query(bytes@.skip(pos as int))
                == Ok::<(PackageQueryView, int), DeserializationError>((q@, n as int)),
            Err(e) => spec_decode_query(bytes@.skip(pos as int)) == Err::<(PackageQueryView, int),
                DeserializationError,
            >(e),
        }),
{
    let ghost sv = bytes@.skip(pos as int);
    let blen = bytes.len();
    let (nm, n1) = match read_str(bytes, pos) {
        Ok(p) => p,
        Err(e) => {
            return Err(e);
        },
    };
    proof {
        assert(sv.skip(n1 as int) =~= bytes@.skip(pos + n1));
    }
    let (vr, n2) = match read_str(bytes, pos + n1) {
        Ok(p) => p,
        Err(e) => {
            return Err(e);
        },
    };
    proof {
        assert(sv.skip(n1 + n2 as int) =~= bytes@.skip(pos + n1 + n2));
    }
    let (c, n3) = match VersionCondition::deserialize_at(bytes, pos + n1 + n2) {
        Ok(p) => p,
        Err(e) => {
            return Err(e);
        },
    };
    Ok((PackageQuery { version: c, name: PackageName { name: nm, variant: vr } }, n1 + n2 + n3))
}

/// Reads `count` consecutive dependency queries starting at `pos`.
fn read_queries(bytes: &[u8], pos: usize, count: u16) -> (r: Result<(Vec<PackageQuery>, usize),
    DeserializationError,
>)
    requires
        pos <= bytes@.len(),
    ensures
        (match r {
            Ok((qs, n)) => pos + n <= bytes@.len() && spec_decode_queries(
                bytes@.skip(pos as int),
                count as nat,
            ) == Ok::<(Seq<PackageQueryView>, int), DeserializationError>(
                (qs@.map_values(|q: PackageQuery| q@), n as int),
            ),
            Err(e) => spec_decode_queries(bytes@.skip(pos as int), count as nat) == Err::<(Seq<
                PackageQueryView,
            >, int), DeserializationError>(e),
        }),
    decreases count,
{
    let blen = bytes.len();
    if count == 0 {
        let qs: Vec<PackageQuery> = Vec::new();
        proof {
            assert(qs@.map_values(|q: PackageQuery| q@) =~= Seq::<PackageQueryView>::empty());
        }
        return Ok((qs, 0));
    }
    let (q, n) = match read_query(bytes, pos) {
        Ok(p) => p,
        Err(e) => {
            return Err(e);
        },
    };
    proof {
        assert(bytes@.skip(pos as int).skip(n as int) =~= bytes@.skip(pos + n));
    }
    match read_queries(bytes, pos + n, count - 1) {
        Ok((mut qs, m)) => {
            let ghost tail = qs@.map_values(|x: PackageQuery| x@);
            qs.insert(0, q);
            proof {
                assert(qs@.map_values(|x: PackageQuery| x@) =~= seq![q@] + tail);
            }
            Ok((qs, n + m))
        },
        Err(e) => Err(e),
    }
}

impl Package {
    /// Whether every field of this record fits behind the wire format's
    /// length prefixes.
    pub fn is_bounded(&self) -> (b: bool)
        ensures
            b == bounded(self@),
    {
        if self.name.name.as_str().as_bytes().len() > 0xFFFF {
            return false;
        }
        if self.name.variant.as_str().as_bytes().len() > 0xFFFF {
            return false;
        }
        if self.dependencies.len() > 0xFFFF {
            return false;
        }
        if self.extractor.len() as u64 > 0xFFFF_FFFFu64 {
            return false;
        }
        let mut i: usize = 0;
        while i < self.dependencies.len()
            invariant
                i <= self.dependencies.len(),
                forall|j: int|
                    0 <= j < i ==> str_fits(#[trigger] self@.dependencies[j].name.name) && str_fits(
                        self@.dependencies[j].name.variant,
                    ),
            decreases self.dependencies.len() - i,
        {
            proof {
                assert(self@.dependencies[i as int] == self.dependencies@[i as int]@);
                assert(self@.dependencies[i as int].name.name == self.dependencies@[i as int]@.name.name);
                assert(self@.dependencies[i as int].name.variant == self.dependencies@[i as int]@.name.variant);
            }
            if self.dependencies[i].name.name.as_str().as_bytes().len() > 0xFFFF {
                return false;
            }
            if self.dependencies[i].name.variant.as_str().as_bytes().len() > 0xFFFF {
                return false;
            }
            proof {
                assert(str_fits(self@.dependencies[i as int].name.name));
                assert(str_fits(self@.dependencies[i as int].name.variant));
            }
            i += 1;
        }
        true
    }

    /// Serialize this record into the index response wire format.
    pub fn store(&self) -> (r: Vec<u8>)
        requires
            bounded(self@),
        ensures
            r@ == spec_encode_package(self@),
    {
        let mut out: Vec<u8> = Vec::new();
        write_str(&mut out, self.name.name.as_str());
        write_str(&mut out, self.name.variant.as_str());
        u16_write_be(&mut out, self.dependencies.len() as u16);
        let ghost base = out@;
        let mut i: usize = 0;
        while i < self.dependencies.len()
            invariant
                i <= self.dependencies.len(),
                bounded(self@),
                out@ == base + spec_encode_queries(self@.dependencies.take(i as int)),
            decreases self.dependencies.len() - i,
        {
            let ghost before = out@;
            proof {
                assert(self@.dependencies[i as int] == self.dependencies@[i as int]@);
                assert(self@.dependencies[i as int].name.name == self.dependencies@[i as int]@.name.name);
                assert(self@.dependencies[i as int].name.variant == self.dependencies@[i as int]@.name.variant);
                assert(str_fits(self@.dependencies[i as int].name.name));
                assert(str_fits(self@.dependencies[i as int].name.variant));
            }
            write_str(&mut out, self.dependencies[i].name.name.as_str());
            write_str(&mut out, self.dependencies[i].name.variant.as_str());
            let ser = self.dependencies[i].version.serialize();
            out.extend_from_slice(ser.as_slice());
            proof {
                assert(out@ =~= before + spec_encode_query(self@.dependencies[i as int]));
                lemma_encode_queries_push(
                    self@.dependencies.take(i as int),
                    self@.dependencies[i as int],
                );
                assert(self@.dependencies.take(i + 1) =~= self@.dependencies.take(i as int).push(
                    self@.dependencies[i as int],
                ));
                assert(out@ =~= base + spec_encode_queries(self@.dependencies.take(i + 1)));
            }
            i += 1;
        }
        proof {
            assert(self@.dependencies.take(i as int) =~= self@.dependencies);
        }
        u32_write_be(&mut out, self.extractor.len() as u32);
        out.extend_from_slice(self.extractor.as_slice());
        proof {
            assert(out@ =~= spec_encode_package(self@));
        }
        out
    }

    /// Parse an index response body into a package record. The body must
    /// hold exactly one record.
    pub fn load(bytes: &[u8]) -> (r: Result<Package, DeserializationError>)
        ensures
            (match r {
                Ok(p) => spec_load(bytes@) == Ok::<PackageView, DeserializationError>(p@),
                Err(e) => spec_load(bytes@) == Err::<PackageView, DeserializationError>(e),
            }),
    {
        proof {
            assert(bytes@.skip(0) =~= bytes@);
        }
        let blen = bytes.len();
        let (nm, n1) = match read_str(bytes, 0) {
            Ok(p) => p,
            Err(e) => {
                return Err(e);
            },
        };
        let (vr, n2) = match read_str(bytes, n1) {
            Ok(p) => p,
            Err(e) => {
                return Err(e);
            },
        };
        if bytes.len() - (n1 + n2) < 2 {
            return Err(DeserializationError::ShortRead);
        }
        let count = u16_read_be(bytes, n1 + n2);
        let (deps, n3) = match read_queries(bytes, n1 + n2 + 2, count) {
            Ok(p) => p,
            Err(e) => {
                return Err(e);
            },
        };
        let o = n1 + n2 + 2 + n3;
        if bytes.len() - o < 4 {
            return Err(DeserializationError::ShortRead);
        }
        let elen = u32_read_be(bytes, o) as u64;
        if ((bytes.len() - o - 4) as u64) < elen {
            return Err(DeserializationError::ShortRead);
        }
        if ((bytes.len() - o - 4) as u64) > elen {
            return Err(DeserializationError::TrailingData);
        }
        let extractor = slice_to_vec(slice_subrange(bytes, o + 4, o + 4 + elen as usize));
        let p = Package { name: PackageName { name: nm, variant: vr }, dependencies: deps, extractor };
        proof {
            assert(p@ =~= spec_load(bytes@)->Ok_0);
        }
        Ok(p)
    }
}

} // verus!
