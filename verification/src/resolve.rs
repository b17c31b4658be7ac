//! The resolution engine.
//!
//! Resolving a query asks a trust-ordered list of indexes for a package,
//! first success wins; a candidate is then validated against a
//! trust-ordered list of trustees, where the first trustee with an
//! opinion decides and no opinion at all conservatively rejects; an
//! accepted package's dependencies are resolved in turn, depth first,
//! before the resolution reports success. The engine performs no outside
//! work itself: the caller reads [`Resolver::step`], performs the fetch
//! or the trust check, and reports what came back.

use vstd::prelude::*;

use crate::index::QueryError;
use crate::package::{Package, PackageName, PackageNameView, PackageQuery, PackageQueryView};

verus! {

/// A trustee's verdict on a candidate package.
#[derive(Clone, Copy, PartialEq, Eq, Debug)]
pub enum TrustVerdict {
    /// The trustee vouches for the package.
    Accept,
    /// The trustee rejects the package.
    Reject,
    /// The trustee cannot produce a verdict for this package.
    NoOpinion,
}

/// Why a resolution failed.
#[derive(Clone, Copy, PartialEq, Eq, Debug)]
pub enum ResolveError {
    /// No index knew the package.
    NotFound,
    /// A reachable index returned an undecodable body. Masking such
    /// corruption by falling through to the next index risks installing
    /// tampered data, so it ends the resolution.
    InvalidData,
    /// Every trustee was without an opinion, or one rejected the
    /// candidate.
    UntrustedPackage,
    /// A package's dependency closure would include the package itself.
    DependencyCycle,
}

/// What the resolution needs next from its caller.
pub enum ResolveStep {
    /// Ask the index at this position (most reliable first) for the
    /// current query and report the outcome through `on_fetch`.
    QueryIndex { index: usize },
    /// Ask the trustee at this position (most trusted first) for a
    /// verdict on the candidate and report it through `on_verdict`.
    AskTrustee { trustee: usize },
    /// The whole dependency closure is resolved.
    Resolved,
    /// The resolution failed.
    Failed { error: ResolveError },
}

/// A dependency query waiting to be resolved, together with the names of
/// the packages on whose behalf it is requested, outermost first.
pub struct PendingQuery {
    pub query: PackageQuery,
    pub chain: Vec<PackageName>,
}

/// The query being resolved right now.
pub struct CurrentQuery {
    /// The query itself.
    pub query: PackageQuery,
    /// Names of the packages on whose behalf it is requested.
    pub chain: Vec<PackageName>,
    /// The next index to ask while no candidate is at hand.
    pub next_index: usize,
    /// The package the first successful index returned, if any.
    pub candidate: Option<Package>,
    /// The next trustee to ask about the candidate.
    pub next_trustee: usize,
}

/// The names of a sequence of package names, as mathematical values.
pub open spec fn names_view(v: Seq<PackageName>) -> Seq<PackageNameView> {
    v.map_values(|n: PackageName| n@)
}

/// Whether `n` occurs in `chain`.
pub open spec fn name_in(chain: Seq<PackageNameView>, n: PackageNameView) -> bool {
    exists|i: int| 0 <= i < chain.len() && chain[i] == n
}

/// The mathematical value of a pending query: its query and its chain.
pub open spec fn pending_view(p: PendingQuery) -> (PackageQueryView, Seq<PackageNameView>) {
    (p.query@, names_view(p.chain@))
}

/// The mathematical values of a pending-query stack.
pub open spec fn pendings_view(v: Seq<PendingQuery>) -> Seq<
    (PackageQueryView, Seq<PackageNameView>),
> {
    v.map_values(|p: PendingQuery| pending_view(p))
}

/// Whether accepting a package whose dependencies are `deps` on behalf
/// of the chain `chain` would close a cycle: some dependency names a
/// package already being resolved.
pub open spec fn closes_cycle(chain: Seq<PackageNameView>, deps: Seq<PackageQueryView>) -> bool {
    exists|k: int| 0 <= k < deps.len() && name_in(chain, deps[k].name)
}


/// Whether the two names denote the same package family.
fn names_equal(a: &PackageName, b: &PackageName) -> (r: bool)
    ensures
        r == (a@ == b@),
{
    let r = a.name == b.name && a.variant == b.variant;
    proof {
        if a.name@ == b.name@ && a.variant@ == b.variant@ {
            assert(a@ =~= b@);
        }
    }
    r
}

/// Whether `n` occurs among the names of `chain`.
fn chain_contains(chain: &Vec<PackageName>, n: &PackageName) -> (r: bool)
    ensures
        r == name_in(names_view(chain@), n@),
{
    let mut i: usize = 0;
    let mut found = false;
    while i < chain.len()
        invariant
            i <= chain@.len(),
            found ==> exists|j: int| 0 <= j < i && chain@[j]@ == n@,
            !found ==> forall|j: int| 0 <= j < i ==> chain@[j]@ != n@,
        decreases chain@.len() - i,
    {
        if names_equal(&chain[i], n) {
            found = true;
        }
        i += 1;
    }
    proof {
        assert(forall|j: int|
            0 <= j < chain@.len() ==> names_view(chain@)[j] == #[trigger] chain@[j]@);
    }
    found
}

/// A copy of a name list denoting the same names.
fn clone_names(v: &Vec<PackageName>) -> (r: Vec<PackageName>)
    ensures
        names_view(r@) == names_view(v@),
{
    let mut out: Vec<PackageName> = Vec::new();
    let mut i: usize = 0;
    while i < v.len()
        invariant
            i <= v@.len(),
            out@.len() == i,
            forall|j: int| 0 <= j < i ==> out@[j]@ == v@[j]@,
        decreases v@.len() - i,
    {
        out.push(v[i].clone());
        i += 1;
    }
    proof {
        assert(names_view(out@) =~= names_view(v@));
    }
    out
}

/// A copy of a query list denoting the same queries.
fn clone_queries(v: &Vec<PackageQuery>) -> (r: Vec<PackageQuery>)
    ensures
        r@.map_values(|q: PackageQuery| q@) == v@.map_values(|q: PackageQuery| q@),
{
    let mut out: Vec<PackageQuery> = Vec::new();
    let mut i: usize = 0;
    while i < v.len()
        invariant
            i <= v@.len(),
            out@.len() == i,
            forall|j: int| 0 <= j < i ==> out@[j]@ == v@[j]@,
        decreases v@.len() - i,
    {
        out.push(v[i].clone());
        i += 1;
    }
    proof {
        assert(out@.map_values(|q: PackageQuery| q@) =~= v@.map_values(|q: PackageQuery| q@));
    }
    out
}

/// The resolution engine's state.
pub struct Resolver {
    /// How many indexes are configured, most reliable first.
    pub n_indexes: usize,
    /// How many trustees are configured, most trusted first.
    pub n_trustees: usize,
    /// Dependency queries not yet begun; the last entry is begun next.
    pub pending: Vec<PendingQuery>,
    /// The query being resolved now, if any.
    pub current: Option<CurrentQuery>,
    /// Accepted packages in resolution order: a package stands before
    /// the packages its own dependencies resolved to.
    pub resolved: Vec<Package>,
    /// The failure that ended the resolution, if one did.
    pub failed: Option<ResolveError>,
}

impl Resolver {
    /// The machine is at rest awaiting an index fetch outcome.
    pub open spec fn awaiting_fetch(&self) -> bool {
        &&& self.failed is None
        &&& self.current matches Some(c) && c.candidate is None
    }

    /// The machine is at rest awaiting a trustee verdict.
    pub open spec fn awaiting_verdict(&self) -> bool {
        &&& self.failed is None
        &&& self.current matches Some(c) && c.candidate is Some
    }

    /// The whole dependency closure is resolved.
    pub open spec fn is_resolved(&self) -> bool {
        &&& self.failed is None
        &&& self.current is None
    }

    /// Structural soundness: cursors stay within the configured index
    /// and trustee counts, and nothing is left pending once done.
    pub open spec fn wf(&self) -> bool {
        &&& (self.failed is None ==> (self.current matches Some(c) ==> c.candidate is None
            ==> c.next_index < self.n_indexes))
        &&& (self.failed is None ==> (self.current matches Some(c) ==> c.candidate is Some
            ==> c.next_trustee < self.n_trustees))
        &&& (self.failed is None && self.pending@.len() > 0 ==> self.n_indexes > 0)
        &&& (self.failed is None && self.current is Some ==> self.n_indexes > 0)
        &&& (self.failed is None && self.current is None ==> self.pending@.len() == 0)
    }

    /// Begins a resolution of `query`. With no index configured, the
    /// resolution has already failed with `NotFound`.
    pub fn new(query: PackageQuery, n_indexes: usize, n_trustees: usize) -> (r: Resolver)
        ensures
            r.wf(),
            r.n_indexes == n_indexes,
            r.n_trustees == n_trustees,
            r.resolved@.len() == 0,
            n_indexes == 0 ==> r.failed == Some(ResolveError::NotFound),
            n_indexes > 0 ==> r.awaiting_fetch() && (r.current matches Some(c)
                && c.query@ == query@ && c.next_index == 0 && c.chain@.len() == 0),
    {
        let failed = if n_indexes == 0 {
            Some(ResolveError::NotFound)
        } else {
            None
        };
        Resolver {
            n_indexes,
            n_trustees,
            pending: Vec::new(),
            current: Some(
                CurrentQuery {
                    query,
                    chain: Vec::new(),
                    next_index: 0,
                    candidate: None,
                    next_trustee: 0,
                },
            ),
            resolved: Vec::new(),
            failed,
        }
    }

    /// What the caller must do next.
    pub fn step(&self) -> (s: ResolveStep)
        requires
            self.wf(),
        ensures
            (match s {
                ResolveStep::Failed { error } => self.failed == Some(error),
                ResolveStep::QueryIndex { index } => self.awaiting_fetch() && index
                    < self.n_indexes && (self.current matches Some(c) && c.next_index == index),
                ResolveStep::AskTrustee { trustee } => self.awaiting_verdict() && trustee
                    < self.n_trustees && (self.current matches Some(c) && c.next_trustee
                    == trustee),
                ResolveStep::Resolved => self.is_resolved(),
            }),
    {
        match &self.failed {
            Some(e) => ResolveStep::Failed { error: *e },
            None => match &self.current {
                Some(c) => match &c.candidate {
                    None => ResolveStep::QueryIndex { index: c.next_index },
                    Some(_) => ResolveStep::AskTrustee { trustee: c.next_trustee },
                },
                None => ResolveStep::Resolved,
            },
        }
    }

    /// Report what asking an index for the current query came to: the
    /// package it returned, or why it did not. A miss falls through to
    /// the next index, a miss at the last index fails the resolution
    /// with `NotFound`, and an undecodable body fails it with
    /// `InvalidData`. A candidate moves the machine to trust validation;
    /// with no trustee configured the conservative default rejects it.
    pub fn on_fetch(&mut self, outcome: Result<Package, QueryError>)
        requires
            old(self).wf(),
            old(self).awaiting_fetch(),
        ensures
            final(self).wf(),
            final(self).n_indexes == old(self).n_indexes,
            final(self).n_trustees == old(self).n_trustees,
            final(self).resolved == old(self).resolved,
            final(self).pending == old(self).pending,
            ({
                let c = old(self).current->Some_0;
                match outcome {
                    Err(QueryError::NotFound) => if c.next_index + 1 < old(self).n_indexes {
                        final(self).awaiting_fetch() && final(self).current == Some(
                            CurrentQuery { next_index: (c.next_index + 1) as usize, ..c },
                        )
                    } else {
                        final(self).failed == Some(ResolveError::NotFound)
                    },
                    Err(QueryError::InvalidData) => final(self).failed == Some(
                        ResolveError::InvalidData,
                    ),
                    Ok(p) => if old(self).n_trustees == 0 {
                        final(self).failed == Some(ResolveError::UntrustedPackage)
                    } else {
                        final(self).awaiting_verdict() && final(self).current == Some(
                            CurrentQuery { candidate: Some(p), next_trustee: 0, ..c },
                        )
                    },
                }
            }),
    {
        match outcome {
            Err(QueryError::NotFound) => {
                let advance = match &self.current {
                    Some(c) => c.next_index + 1 < self.n_indexes,
                    None => false,
                };
                if advance {
                    if let Some(c) = &mut self.current {
                        c.next_index += 1;
                    }
                } else {
                    self.failed = Some(ResolveError::NotFound);
                }
            },
            Err(QueryError::InvalidData) => {
                self.failed = Some(ResolveError::InvalidData);
            },
            Ok(p) => {
                if self.n_trustees == 0 {
                    self.failed = Some(ResolveError::UntrustedPackage);
                } else {
                    if let Some(c) = &mut self.current {
                        c.candidate = Some(p);
                        c.next_trustee = 0;
                    }
                }
            },
        }
    }

    /// Report the verdict of asking the trustee `step` named about the
    /// current candidate. The first trustee with an opinion decides: a
    /// rejection fails the resolution, acceptance installs the
    /// candidate's dependencies as new queries (first dependency first)
    /// after checking that none names a package already being resolved;
    /// with every trustee out of opinions the conservative default
    /// rejects.
    pub fn on_verdict(&mut self, verdict: TrustVerdict)
        requires
            old(self).wf(),
            old(self).awaiting_verdict(),
        ensures
            final(self).wf(),
            final(self).n_indexes == old(self).n_indexes,
            final(self).n_trustees == old(self).n_trustees,
            ({
                let c = old(self).current->Some_0;
                let p = c.candidate->Some_0;
                let chainv = names_view(c.chain@).push(c.query.name@);
                match verdict {
                    TrustVerdict::Reject => final(self).failed == Some(
                        ResolveError::UntrustedPackage,
                    ) && final(self).resolved == old(self).resolved && final(self).pending == old(self).pending,
                    TrustVerdict::NoOpinion => (if c.next_trustee + 1 < old(self).n_trustees {
                        final(self).awaiting_verdict() && final(self).current == Some(
                            CurrentQuery { next_trustee: (c.next_trustee + 1) as usize, ..c },
                        )
                    } else {
                        final(self).failed == Some(ResolveError::UntrustedPackage)
                    }) && final(self).resolved == old(self).resolved && final(self).pending == old(self).pending,
                    TrustVerdict::Accept => if closes_cycle(chainv, p@.dependencies) {
                        final(self).failed == Some(ResolveError::DependencyCycle) && final(self).resolved == old(self).resolved && final(self).pending == old(self).pending
                    } else {
                        let stacked = pendings_view(old(self).pending@) + Seq::new(
                            p@.dependencies.len(),
                            |k: int| (p@.dependencies[p@.dependencies.len() - 1 - k], chainv),
                        );
                        final(self).resolved@ == old(self).resolved@.push(p) && final(self).failed is None && (if stacked.len() == 0 {
                            final(self).is_resolved()
                        } else {
                            final(self).awaiting_fetch() && (final(self).current matches Some(c2)
                                && c2.next_index == 0 && c2.query@ == stacked.last().0
                                && names_view(c2.chain@) == stacked.last().1 && pendings_view(final(self).pending@) == stacked.drop_last())
                        })
                    },
                }
            }),
    {
        match verdict {
            TrustVerdict::Reject => {
                self.failed = Some(ResolveError::UntrustedPackage);
            },
            TrustVerdict::NoOpinion => {
                let advance = match &self.current {
                    Some(c) => c.next_trustee + 1 < self.n_trustees,
                    None => false,
                };
                if advance {
                    if let Some(c) = &mut self.current {
                        c.next_trustee += 1;
                    }
                } else {
                    self.failed = Some(ResolveError::UntrustedPackage);
                }
            },
            TrustVerdict::Accept => {
                let cur = self.current.take().unwrap();
                let CurrentQuery {
                    query,
                    mut chain,
                    next_index: _,
                    candidate,
                    next_trustee: _,
                } = cur;
                let p = candidate.unwrap();
                let ghost pv = p@;
                chain.push(query.name);
                let ghost chainv = names_view(chain@);
                proof {
                    assert(chainv =~= names_view(old(self).current->Some_0.chain@).push(
                        old(self).current->Some_0.query.name@,
                    ));
                }
                let mut cycle = false;
                let mut k: usize = 0;
                while k < p.dependencies.len()
                    invariant
                        k <= p.dependencies@.len(),
                        pv == p@,
                        chainv == names_view(chain@),
                        cycle == closes_cycle(chainv, pv.dependencies.take(k as int)),
                    decreases p.dependencies@.len() - k,
                {
                    proof {
                        assert(pv.dependencies[k as int] == p.dependencies@[k as int]@);
                    }
                    if chain_contains(&chain, &p.dependencies[k].name) {
                        cycle = true;
                        proof {
                            assert(name_in(chainv, pv.dependencies.take(k + 1)[k as int].name));
                        }
                    }
                    proof {
                        assert(pv.dependencies.take(k as int) =~= pv.dependencies.take(
                            k + 1,
                        ).take(k as int));
                        assert(forall|j: int| 0 <= j < k + 1 ==> pv.dependencies.take(k + 1)[j]
                            == pv.dependencies[j]);
                    }
                    k += 1;
                }
                proof {
                    assert(pv.dependencies.take(p.dependencies@.len() as int)
                        =~= pv.dependencies);
                }
                if cycle {
                    self.failed = Some(ResolveError::DependencyCycle);
                    return ;
                }
                let mut work = clone_queries(&p.dependencies);
                self.resolved.push(p);
                let ghost total = work@.len();
                let ghost stacked = pendings_view(old(self).pending@) + Seq::new(
                    pv.dependencies.len(),
                    |k: int| (pv.dependencies[pv.dependencies.len() - 1 - k], chainv),
                );
                proof {
                    assert(work@.map_values(|q: PackageQuery| q@) =~= pv.dependencies);
                }
                while work.len() > 0
                    invariant
                        work@.len() <= total,
                        total == pv.dependencies.len(),
                        chainv == names_view(chain@),
                        forall|j: int| 0 <= j < work@.len() ==> work@[j]@ == pv.dependencies[j],
                        pendings_view(self.pending@) =~= pendings_view(old(self).pending@)
                            + Seq::new(
                            (total - work@.len()) as nat,
                            |k: int| (pv.dependencies[pv.dependencies.len() - 1 - k], chainv),
                        ),
                        self.resolved@ == old(self).resolved@.push(
                            old(self).current->Some_0.candidate->Some_0,
                        ),
                        self.current is None,
                        self.failed is None,
                        self.n_indexes == old(self).n_indexes,
                        self.n_trustees == old(self).n_trustees,
                        old(self).wf(),
                        old(self).awaiting_verdict(),
                    decreases work@.len(),
                {
                    let ghost prev_work = work@;
                    let ghost prev = self.pending@;
                    let ghost m = total - prev_work.len();
                    let ghost f = |k: int| (pv.dependencies[pv.dependencies.len() - 1 - k], chainv);
                    let q = work.pop().unwrap();
                    let ch = clone_names(&chain);
                    let ghost xv = (q@, names_view(ch@));
                    self.pending.push(PendingQuery { query: q, chain: ch });
                    proof {
                        assert(pendings_view(self.pending@) =~= pendings_view(prev).push(xv));
                        assert(q@ == pv.dependencies[prev_work.len() - 1]);
                        assert(xv == f(m));
                        assert(pendings_view(old(self).pending@) + Seq::new((m + 1) as nat, f)
                            =~= (pendings_view(old(self).pending@) + Seq::new(m as nat, f)).push(
                            f(m),
                        ));
                        assert(pendings_view(self.pending@) =~= pendings_view(old(self).pending@)
                            + Seq::new(
                            (total - work@.len()) as nat,
                            |k: int| (pv.dependencies[pv.dependencies.len() - 1 - k], chainv),
                        ));
                    }
                }
                proof {
                    assert(pendings_view(self.pending@) =~= stacked);
                    assert(pendings_view(self.pending@).len() == self.pending@.len());
                }
                match self.pending.pop() {
                    Some(pq) => {
                        proof {
                            assert(pendings_view(self.pending@.push(pq))
                                == pendings_view(self.pending@).push(pending_view(pq)));
                        }
                        self.current = Some(
                            CurrentQuery {
                                query: pq.query,
                                chain: pq.chain,
                                next_index: 0,
                                candidate: None,
                                next_trustee: 0,
                            },
                        );
                    },
                    None => {
                        self.current = None;
                    },
                }
            },
        }
    }

    /// The resolved closure, in resolution order, once `step` reports
    /// `Resolved`.
    pub fn into_packages(self) -> (r: Vec<Package>)
        requires
            self.wf(),
            self.is_resolved(),
        ensures
            r == self.resolved,
    {
        self.resolved
    }
}

} // verus!
