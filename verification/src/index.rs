//! One remote package index: its endpoint, the request a lookup sends,
//! and the classification of a lookup's outcome.

use vstd::prelude::*;

use crate::condition::DeserializationError;
use crate::package::{Package, PackageQuery, PackageView};
use crate::package::spec_load;

verus! {

/// A remote package index, one of several ranked by reliability.
pub struct Index {
    /// Base address of the index endpoint.
    pub url: String,
}

/// The outcome classification of one index lookup.
#[derive(Clone, Copy, PartialEq, Eq, Debug)]
pub enum QueryError {
    /// The index was reachable but its response body was undecodable or
    /// semantically malformed.
    InvalidData,
    /// The index was unreachable, timed out, returned a non-success
    /// status, or had no such package.
    NotFound,
}

impl Index {
    /// The request parameters a lookup sends: the package family's name
    /// and variant, in that order. The version constraint is not sent;
    /// whether the index filters by version or the client does after the
    /// fetch is an unresolved protocol gap.
    pub fn request_params(&self, query: &PackageQuery) -> (r: Vec<(String, String)>)
        ensures
            r@.len() == 2,
            r@[0].0@ == "name"@,
            r@[0].1@ == query.name.name@,
            r@[1].0@ == "variant"@,
            r@[1].1@ == query.name.variant@,
    {
        let mut out: Vec<(String, String)> = Vec::new();
        out.push(("name".to_owned(), query.name.name.clone()));
        out.push(("variant".to_owned(), query.name.variant.clone()));
        out
    }
}

/// The decoding half of a lookup: parses the response body of a
/// reachable index into a package record, classifying any grammar
/// violation as `InvalidData`.
pub fn parse_response(body: &[u8]) -> (r: Result<Package, QueryError>)
    ensures
        (match r {
            Ok(p) => spec_load(body@) == Ok::<PackageView, DeserializationError>(p@),
            Err(e) => e == QueryError::InvalidData && spec_load(body@) is Err,
        }),
{
    match Package::load(body) {
        Ok(p) => Ok(p),
        Err(_) => Err(QueryError::InvalidData),
    }
}

} // verus!
