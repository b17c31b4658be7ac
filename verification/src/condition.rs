//! The version constraint algebra and its self-describing binary grammar.
//!
//! A constraint is a boolean-expression tree over "version greater than N"
//! predicates. Its serialization is prefix notation over tag bytes: every
//! tag fixes the arity of its node, so each well-formed subtree delimits
//! itself and siblings need no length prefix or terminator.

use vstd::prelude::*;

use crate::bytes::{
    lemma_u64_be_bytes_roundtrip, spec_u64_from_be_bytes, spec_u64_to_be_bytes, u64_read_be,
    u64_write_be,
};

verus! {

/// Tag byte of a conjunction node: two child encodings follow.
pub const TAG_AND: u8 = 0x00;

/// Tag byte of a negation node: one child encoding follows.
pub const TAG_NOT: u8 = 0x01;

/// Tag byte of a leaf: the 8-byte big-endian bound follows.
pub const TAG_GREATER_THAN: u8 = 0x02;

/// A version constraint: a boolean-expression tree whose leaves are
/// "version greater than N" predicates.
#[derive(PartialEq, Hash, Debug)]
pub enum VersionCondition {
    GreaterThan(u64),
    Not(Box<VersionCondition>),
    And(Box<VersionCondition>, Box<VersionCondition>),
}

/// A violation of the binary grammar.
#[derive(Clone, Copy, PartialEq, Eq, Hash, Debug)]
pub enum DeserializationError {
    /// The input ended before the bytes a node requires were read.
    ShortRead,
    /// A leading byte outside the grammar's three node tags.
    UnknownTag(u8),
    /// A string field whose bytes are not valid UTF-8.
    InvalidString,
    /// Bytes left over after a record that must stand alone.
    TrailingData,
}

impl Clone for VersionCondition {
    /// Structural copy of the tree.
    fn clone(&self) -> (r: Self)
        ensures
            r == *self,
        decreases self,
    {
        match self {
            VersionCondition::GreaterThan(v) => VersionCondition::GreaterThan(*v),
            VersionCondition::Not(c) => VersionCondition::Not(Box::new((**c).clone())),
            VersionCondition::And(l, r2) => VersionCondition::And(
                Box::new((**l).clone()),
                Box::new((**r2).clone()),
            ),
        }
    }
}

/// The byte encoding of a constraint tree: a tag byte, then the encodings
/// of the children (for `GreaterThan`, the 8-byte big-endian bound).
pub open spec fn spec_serialize(c: VersionCondition) -> Seq<u8>
    decreases c,
{
    match c {
        VersionCondition::GreaterThan(v) => seq![TAG_GREATER_THAN] + spec_u64_to_be_bytes(v),
        VersionCondition::Not(b) => seq![TAG_NOT] + spec_serialize(*b),
        VersionCondition::And(l, r) => seq![TAG_AND] + spec_serialize(*l) + spec_serialize(*r),
    }
}

/// Decoding one constraint from the front of a byte stream: the decoded
/// tree and the number of bytes its encoding occupies, or the grammar
/// violation hit first.
pub open spec fn spec_deserialize(s: Seq<u8>) -> Result<
    (VersionCondition, int),
    DeserializationError,
>
    decreases s.len(),
{
    if s.len() == 0 {
        Err(DeserializationError::ShortRead)
    } else if s[0] == TAG_GREATER_THAN {
        if s.len() < 9 {
            Err(DeserializationError::ShortRead)
        } else {
            Ok((VersionCondition::GreaterThan(spec_u64_from_be_bytes(s.subrange(1, 9))), 9))
        }
    } else if s[0] == TAG_NOT {
        match spec_deserialize(s.skip(1)) {
            Ok((c, n)) => Ok((VersionCondition::Not(Box::new(c)), 1 + n)),
            Err(e) => Err(e),
        }
    } else if s[0] == TAG_AND {
        match spec_deserialize(s.skip(1)) {
            Ok((left, n1)) => if 1 <= n1 && n1 <= s.len() - 1 {
                match spec_deserialize(s.skip(1 + n1)) {
                    Ok((right, n2)) => Ok(
                        (VersionCondition::And(Box::new(left), Box::new(right)), 1 + n1 + n2),
                    ),
                    Err(e) => Err(e),
                }
            } else {
                Err(DeserializationError::ShortRead)
            },
            Err(e) => Err(e),
        }
    } else {
        Err(DeserializationError::UnknownTag(s[0]))
    }
}

/// A successful decode consumes at least the tag byte and at most the
/// whole stream.
pub proof fn lemma_spec_deserialize_consumed(s: Seq<u8>)
    ensures
        spec_deserialize(s) matches Ok(p) ==> 1 <= p.1 <= s.len(),
    decreases s.len(),
{
    if s.len() == 0 {
    } else if s[0] == TAG_GREATER_THAN {
    } else if s[0] == TAG_NOT {
        lemma_spec_deserialize_consumed(s.skip(1));
    } else if s[0] == TAG_AND {
        lemma_spec_deserialize_consumed(s.skip(1));
        if let Ok((left, n1)) = spec_deserialize(s.skip(1)) {
            if 1 <= n1 && n1 <= s.len() - 1 {
                lemma_spec_deserialize_consumed(s.skip(1 + n1));
            }
        }
    } else {
    }
}

/// The decoder is the inverse of the encoder wherever an encoding stands
/// at the front of a stream: it reproduces the tree and consumes exactly
/// the encoding, whatever bytes follow. This is the round-trip law
/// together with unambiguity: concatenated sibling encodings decode
/// without byte slippage.
pub proof fn lemma_deserialize_serialize(c: VersionCondition, rest: Seq<u8>)
    ensures
        spec_deserialize(spec_serialize(c) + rest) == Ok::<(VersionCondition, int),
            DeserializationError,
        >((c, spec_serialize(c).len() as int)),
    decreases c,
{
    let s = spec_serialize(c) + rest;
    match c {
        VersionCondition::GreaterThan(v) => {
            assert(s[0] == TAG_GREATER_THAN);
            assert(s.subrange(1, 9) =~= spec_u64_to_be_bytes(v));
            lemma_u64_be_bytes_roundtrip(v);
        },
        VersionCondition::Not(b) => {
            assert(s[0] == TAG_NOT);
            assert(s.skip(1) =~= spec_serialize(*b) + rest);
            lemma_deserialize_serialize(*b, rest);
        },
        VersionCondition::And(l, r) => {
            assert(s[0] == TAG_AND);
            let n1 = spec_serialize(*l).len() as int;
            let n2 = spec_serialize(*r).len() as int;
            assert(s.skip(1) =~= spec_serialize(*l) + (spec_serialize(*r) + rest));
            lemma_deserialize_serialize(*l, spec_serialize(*r) + rest);
            lemma_spec_deserialize_consumed(s.skip(1));
            assert(s.skip(1 + n1) =~= spec_serialize(*r) + rest);
            lemma_deserialize_serialize(*r, rest);
            assert(spec_serialize(c).len() == 1 + n1 + n2);
        },
    }
}

/// Round trip on the exact encoding: decoding a serialization yields the
/// original tree and consumes every byte.
pub proof fn lemma_roundtrip(c: VersionCondition)
    ensures
        spec_deserialize(spec_serialize(c)) == Ok::<(VersionCondition, int),
            DeserializationError,
        >((c, spec_serialize(c).len() as int)),
{
    lemma_deserialize_serialize(c, Seq::empty());
    assert(spec_serialize(c) + Seq::empty() =~= spec_serialize(c));
}


/// Unambiguity of the grammar: decoding the concatenation of two
/// serializations as one stream decodes exactly the first value and
/// leaves exactly the second value's bytes, with no byte slippage.
pub proof fn lemma_unambiguous_concatenation(a: VersionCondition, b: VersionCondition)
    ensures
        spec_deserialize(spec_serialize(a) + spec_serialize(b)) == Ok::<(VersionCondition, int),
            DeserializationError,
        >((a, spec_serialize(a).len() as int)),
        (spec_serialize(a) + spec_serialize(b)).skip(spec_serialize(a).len() as int)
            == spec_serialize(b),
{
    lemma_deserialize_serialize(a, spec_serialize(b));
    assert((spec_serialize(a) + spec_serialize(b)).skip(spec_serialize(a).len() as int)
        =~= spec_serialize(b));
}

/// A stream beginning with a byte outside the grammar's three tags is
/// rejected with `UnknownTag` naming that byte.
pub proof fn lemma_unknown_tag(s: Seq<u8>)
    requires
        s.len() > 0,
        s[0] != TAG_AND,
        s[0] != TAG_NOT,
        s[0] != TAG_GREATER_THAN,
    ensures
        spec_deserialize(s) == Err::<(VersionCondition, int), DeserializationError>(
            DeserializationError::UnknownTag(s[0]),
        ),
{
}

/// A `GreaterThan` encoding truncated to fewer than 8 trailing bytes is
/// rejected with a short read, never decoded.
pub proof fn lemma_short_read(s: Seq<u8>)
    requires
        s.len() > 0,
        s[0] == TAG_GREATER_THAN,
        s.len() < 9,
    ensures
        spec_deserialize(s) == Err::<(VersionCondition, int), DeserializationError>(
            DeserializationError::ShortRead,
        ),
{
}

impl VersionCondition {
    /// Serialize this version condition into its tag-prefixed recursive
    /// byte encoding.
    pub fn serialize(&self) -> (r: Vec<u8>)
        ensures
            r@ == spec_serialize(*self),
    {
        let mut out: Vec<u8> = Vec::new();
        self.write_to(&mut out);
        proof {
            assert(out@ =~= spec_serialize(*self));
        }
        out
    }

    /// Appends this tree's encoding to `out`.
    fn write_to(&self, out: &mut Vec<u8>)
        ensures
            final(out)@ == old(out)@ + spec_serialize(*self),
        decreases self,
    {
        match self {
            VersionCondition::GreaterThan(v) => {
                out.push(TAG_GREATER_THAN);
                u64_write_be(out, *v);
                assert(out@ =~= old(out)@ + spec_serialize(*self));
            },
            VersionCondition::Not(c) => {
                out.push(TAG_NOT);
                c.write_to(out);
                assert(out@ =~= old(out)@ + spec_serialize(*self));
            },
            VersionCondition::And(l, r) => {
                out.push(TAG_AND);
                l.write_to(out);
                r.write_to(out);
                assert(out@ =~= old(out)@ + spec_serialize(*self));
            },
        }
    }

    /// Deserialize one version condition from the front of `bytes`,
    /// returning it with the number of bytes consumed.
    pub fn deserialize(bytes: &[u8]) -> (r: Result<(VersionCondition, usize),
        DeserializationError,
    >)
        ensures
            (match r {
                Ok((c, n)) => spec_deserialize(bytes@) == Ok::<(VersionCondition, int),
                    DeserializationError,
                >((c, n as int)),
                Err(e) => spec_deserialize(bytes@) == Err::<(VersionCondition, int),
                    DeserializationError,
                >(e),
            }),
    {
        proof {
            assert(bytes@.skip(0) =~= bytes@);
        }
        Self::deserialize_at(bytes, 0)
    }

    /// Deserialize one version condition starting at `pos`, returning it
    /// with the number of bytes consumed.
    pub fn deserialize_at(bytes: &[u8], pos: usize) -> (r: Result<(VersionCondition, usize),
        DeserializationError,
    >)
        requires
            pos <= bytes@.len(),
        ensures
            (match r {
                Ok((c, n)) => pos + n <= bytes@.len() && spec_deserialize(bytes@.skip(pos as int))
                    == Ok::<(VersionCondition, int), DeserializationError>((c, n as int)),
                Err(e) => spec_deserialize(bytes@.skip(pos as int)) == Err::<(VersionCondition, int),
                    DeserializationError,
                >(e),
            }),
        decreases bytes@.len() - pos,
    {
        let ghost s = bytes@.skip(pos as int);
        proof {
            lemma_spec_deserialize_consumed(s);
        }
        if pos >= bytes.len() {
            return Err(DeserializationError::ShortRead);
        }
        let tag = bytes[pos];
        proof {
            assert(s[0] == bytes@[pos as int]);
        }
        if tag == TAG_GREATER_THAN {
            if bytes.len() - pos < 9 {
                return Err(DeserializationError::ShortRead);
            }
            let v = u64_read_be(bytes, pos + 1);
            proof {
                assert(s.subrange(1, 9) =~= bytes@.subrange(pos + 1, pos + 9));
            }
            Ok((VersionCondition::GreaterThan(v), 9))
        } else if tag == TAG_NOT {
            proof {
                assert(s.skip(1) =~= bytes@.skip(pos + 1));
                lemma_spec_deserialize_consumed(s.skip(1));
            }
            match Self::deserialize_at(bytes, pos + 1) {
                Ok((c, n)) => Ok((VersionCondition::Not(Box::new(c)), 1 + n)),
                Err(e) => Err(e),
            }
        } else if tag == TAG_AND {
            proof {
                assert(s.skip(1) =~= bytes@.skip(pos + 1));
                lemma_spec_deserialize_consumed(s.skip(1));
            }
            match Self::deserialize_at(bytes, pos + 1) {
                Ok((left, n1)) => {
                    proof {
                        assert(s.skip(1 + n1 as int) =~= bytes@.skip(pos + 1 + n1));
                        lemma_spec_deserialize_consumed(s.skip(1 + n1 as int));
                    }
                    match Self::deserialize_at(bytes, pos + 1 + n1) {
                        Ok((right, n2)) => Ok(
                            (VersionCondition::And(Box::new(left), Box::new(right)), 1 + n1 + n2),
                        ),
                        Err(e) => Err(e),
                    }
                },
                Err(e) => Err(e),
            }
        } else {
            Err(DeserializationError::UnknownTag(tag))
        }
    }
}

} // verus!
