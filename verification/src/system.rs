//! The local installed-package registry.
//!
//! The system owns the set of installed packages, their dependency
//! edges, and reference counts governing safe removal: a package's
//! `dependency_for` always equals the number of installed packages that
//! list it as a dependency, and only a package nobody depends on may be
//! uninstalled. Dependencies must be installed before their dependents,
//! so the installed dependency graph can hold no cycle.

use vstd::prelude::*;

use crate::index::Index;
use crate::package::{PackageName, PackageQuery};
use crate::resolve::Resolver;

verus! {

/// A process-local handle of an installed package, assigned at install
/// time; not a content hash and meaningless outside this system.
pub type PackageId = u16;

/// An authority able to vouch for a fetched package, stood in for by
/// its opaque key material; the signature checking itself is an
/// external collaborator.
pub struct Trustee {
    /// The trusted key the external verifier consumes.
    pub key: Vec<u8>,
}

/// A local, installed package.
pub struct LocalPackage {
    /// Name of the package.
    pub name: PackageName,
    /// Number of installed packages this package is a dependency for.
    pub dependency_for: u16,
    /// The dependencies of this package.
    pub dependencies: Vec<PackageId>,
}

/// Why a registry mutation was refused.
#[derive(Clone, Copy, PartialEq, Eq, Debug)]
pub enum RegistryError {
    /// A listed dependency id is not installed.
    MissingDependency,
    /// The same dependency id was listed more than once.
    DuplicateDependency,
    /// Every id has been handed out in this system's lifetime.
    IdsExhausted,
    /// The id is not installed.
    NotInstalled,
    /// The package is still a dependency of an installed package.
    InUse,
}

/// How many installed packages list `id` as a dependency.
pub open spec fn dependents(s: Seq<(PackageId, LocalPackage)>, id: PackageId) -> nat
    decreases s.len(),
{
    if s.len() == 0 {
        0
    } else {
        dependents(s.drop_last(), id) + (if s.last().1.dependencies@.contains(id) {
            1nat
        } else {
            0
        })
    }
}

/// Whether `id` is installed.
pub open spec fn has_key(s: Seq<(PackageId, LocalPackage)>, id: PackageId) -> bool {
    exists|i: int| 0 <= i < s.len() && s[i].0 == id
}

/// The position of `id` among the installed entries.
pub open spec fn index_of(s: Seq<(PackageId, LocalPackage)>, id: PackageId) -> int {
    choose|i: int| 0 <= i < s.len() && s[i].0 == id
}

/// No two installed entries share an id.
pub open spec fn keys_unique(s: Seq<(PackageId, LocalPackage)>) -> bool {
    forall|a: int, b: int| 0 <= a < b < s.len() ==> s[a].0 != s[b].0
}

/// Every dependency edge points at an entry installed earlier, so the
/// dependency graph has no cycle.
pub open spec fn deps_point_earlier(s: Seq<(PackageId, LocalPackage)>) -> bool {
    forall|a: int, d: PackageId|
        0 <= a < s.len() && #[trigger] s[a].1.dependencies@.contains(d) ==> exists|j: int|
            0 <= j < a && s[j].0 == d
}

/// No entry lists the same dependency twice.
pub open spec fn deps_no_duplicates(s: Seq<(PackageId, LocalPackage)>) -> bool {
    forall|a: int| 0 <= a < s.len() ==> (#[trigger] s[a].1.dependencies@).no_duplicates()
}

/// Every reference count equals the number of entries listing the id.
pub open spec fn counts_consistent(s: Seq<(PackageId, LocalPackage)>) -> bool {
    forall|a: int|
        0 <= a < s.len() ==> (#[trigger] s[a].1.dependency_for) as nat == dependents(s, s[a].0)
}

/// The entries with each listed dependency's reference count raised by
/// one.
pub open spec fn bump(s: Seq<(PackageId, LocalPackage)>, deps: Seq<PackageId>) -> Seq<
    (PackageId, LocalPackage),
> {
    s.map_values(
        |e: (PackageId, LocalPackage)|
            if deps.contains(e.0) {
                (
                    e.0,
                    LocalPackage {
                        dependency_for: (e.1.dependency_for + 1) as u16,
                        ..e.1
                    },
                )
            } else {
                e
            },
    )
}

/// The entries with each listed dependency's reference count lowered by
/// one.
pub open spec fn unbump(s: Seq<(PackageId, LocalPackage)>, deps: Seq<PackageId>) -> Seq<
    (PackageId, LocalPackage),
> {
    s.map_values(
        |e: (PackageId, LocalPackage)|
            if deps.contains(e.0) {
                (
                    e.0,
                    LocalPackage {
                        dependency_for: (e.1.dependency_for - 1) as u16,
                        ..e.1
                    },
                )
            } else {
                e
            },
    )
}

/// A reference count never exceeds the number of entries.
proof fn lemma_dependents_le(s: Seq<(PackageId, LocalPackage)>, id: PackageId)
    ensures
        dependents(s, id) <= s.len(),
    decreases s.len(),
{
    if s.len() > 0 {
        lemma_dependents_le(s.drop_last(), id);
    }
}

/// An id nobody can refer to has a zero reference count.
proof fn lemma_dependents_zero(s: Seq<(PackageId, LocalPackage)>, id: PackageId)
    requires
        deps_point_earlier(s),
        forall|j: int| 0 <= j < s.len() ==> (#[trigger] s[j].0) != id,
    ensures
        dependents(s, id) == 0,
    decreases s.len(),
{
    if s.len() > 0 {
        let t = s.drop_last();
        assert forall|a: int, d: PackageId|
            0 <= a < t.len() && #[trigger] t[a].1.dependencies@.contains(d) implies exists|j: int|
            0 <= j < a && t[j].0 == d by {
            assert(s[a].1.dependencies@.contains(d));
            let j = choose|j: int| 0 <= j < a && s[j].0 == d;
            assert(t[j].0 == d);
        }
        lemma_dependents_zero(t, id);
        if s.last().1.dependencies@.contains(id) {
            let j = choose|j: int| 0 <= j < s.len() - 1 && s[j].0 == id;
            assert(false);
        }
    }
}

/// An installed id's reference count is strictly below the number of
/// entries: no entry refers to itself.
proof fn lemma_dependents_lt(s: Seq<(PackageId, LocalPackage)>, i: int)
    requires
        0 <= i < s.len(),
        keys_unique(s),
        deps_point_earlier(s),
    ensures
        dependents(s, s[i].0) <= s.len() - 1,
    decreases s.len(),
{
    let t = s.drop_last();
    assert forall|a: int, d: PackageId|
        0 <= a < t.len() && #[trigger] t[a].1.dependencies@.contains(d) implies exists|j: int|
        0 <= j < a && t[j].0 == d by {
        assert(s[a].1.dependencies@.contains(d));
        let j = choose|j: int| 0 <= j < a && s[j].0 == d;
        assert(t[j].0 == d);
    }
    if i == s.len() - 1 {
        if s.last().1.dependencies@.contains(s[i].0) {
            let j = choose|j: int| 0 <= j < s.len() - 1 && s[j].0 == s[i].0;
            assert(false);
        }
        lemma_dependents_le(t, s[i].0);
    } else {
        lemma_dependents_lt(t, i);
        assert(t[i] == s[i]);
    }
}

/// A listed dependency has at least one dependent on record.
proof fn lemma_dependents_pos(s: Seq<(PackageId, LocalPackage)>, a: int, d: PackageId)
    requires
        0 <= a < s.len(),
        s[a].1.dependencies@.contains(d),
    ensures
        dependents(s, d) >= 1,
    decreases s.len(),
{
    if a == s.len() - 1 {
        lemma_dependents_le(s.drop_last(), d);
    } else {
        assert(s.drop_last()[a] == s[a]);
        lemma_dependents_pos(s.drop_last(), a, d);
    }
}

/// Raising reference counts alone does not change who depends on whom.
proof fn lemma_dependents_bump(
    s: Seq<(PackageId, LocalPackage)>,
    deps: Seq<PackageId>,
    id: PackageId,
)
    ensures
        dependents(bump(s, deps), id) == dependents(s, id),
    decreases s.len(),
{
    if s.len() > 0 {
        assert(bump(s, deps).drop_last() =~= bump(s.drop_last(), deps));
        assert(bump(s, deps).last().1.dependencies == s.last().1.dependencies);
        lemma_dependents_bump(s.drop_last(), deps, id);
    } else {
        assert(bump(s, deps) =~= s);
    }
}

/// Lowering reference counts alone does not change who depends on whom.
proof fn lemma_dependents_unbump(
    s: Seq<(PackageId, LocalPackage)>,
    deps: Seq<PackageId>,
    id: PackageId,
)
    ensures
        dependents(unbump(s, deps), id) == dependents(s, id),
    decreases s.len(),
{
    if s.len() > 0 {
        assert(unbump(s, deps).drop_last() =~= unbump(s.drop_last(), deps));
        assert(unbump(s, deps).last().1.dependencies == s.last().1.dependencies);
        lemma_dependents_unbump(s.drop_last(), deps, id);
    } else {
        assert(unbump(s, deps) =~= s);
    }
}

/// Appending an entry adds its own listings to the reference counts.
proof fn lemma_dependents_push(
    s: Seq<(PackageId, LocalPackage)>,
    e: (PackageId, LocalPackage),
    id: PackageId,
)
    ensures
        dependents(s.push(e), id) == dependents(s, id) + (if e.1.dependencies@.contains(id) {
            1nat
        } else {
            0
        }),
{
    assert(s.push(e).drop_last() =~= s);
    assert(s.push(e).last() == e);
}

/// Removing an entry takes exactly its own listings out of the
/// reference counts.
proof fn lemma_dependents_remove(s: Seq<(PackageId, LocalPackage)>, i: int, id: PackageId)
    requires
        0 <= i < s.len(),
    ensures
        dependents(s.remove(i), id) + (if s[i].1.dependencies@.contains(id) {
            1nat
        } else {
            0
        }) == dependents(s, id),
    decreases s.len(),
{
    if i == s.len() - 1 {
        assert(s.remove(i) =~= s.drop_last());
    } else {
        assert(s.remove(i).drop_last() =~= s.drop_last().remove(i));
        assert(s.remove(i).last() == s.last());
        assert(s.drop_last()[i] == s[i]);
        lemma_dependents_remove(s.drop_last(), i, id);
    }
}


/// A dependency edge of the installed graph: the package under `a`
/// lists `b` among its dependencies.
pub open spec fn edge(s: Seq<(PackageId, LocalPackage)>, a: PackageId, b: PackageId) -> bool {
    exists|i: int| 0 <= i < s.len() && s[i].0 == a && s[i].1.dependencies@.contains(b)
}

/// An edge leads from an entry to one installed strictly earlier.
proof fn lemma_edge_decreases(s: Seq<(PackageId, LocalPackage)>, a: PackageId, b: PackageId)
    requires
        keys_unique(s),
        deps_point_earlier(s),
        edge(s, a, b),
    ensures
        has_key(s, a),
        has_key(s, b),
        index_of(s, b) < index_of(s, a),
{
    let i = choose|i: int| 0 <= i < s.len() && s[i].0 == a && s[i].1.dependencies@.contains(b);
    let j = choose|j: int| 0 <= j < i && s[j].0 == b;
    assert(has_key(s, a) && has_key(s, b));
    let ia = index_of(s, a);
    let ib = index_of(s, b);
    assert(0 <= ia < s.len() && s[ia].0 == a);
    assert(0 <= ib < s.len() && s[ib].0 == b);
    assert(ia == i);
    assert(ib == j);
}

/// Along a dependency path the entries' positions strictly decrease.
proof fn lemma_path_decreases(s: Seq<(PackageId, LocalPackage)>, path: Seq<PackageId>)
    requires
        keys_unique(s),
        deps_point_earlier(s),
        path.len() >= 1,
        forall|k: int| 0 <= k < path.len() - 1 ==> edge(s, #[trigger] path[k], path[k + 1]),
        has_key(s, path[0]),
    ensures
        has_key(s, path[path.len() - 1]),
        index_of(s, path[path.len() - 1]) <= index_of(s, path[0]) - (path.len() - 1),
    decreases path.len(),
{
    if path.len() >= 2 {
        assert(edge(s, path[0], path[1]));
        lemma_edge_decreases(s, path[0], path[1]);
        let rest = path.drop_first();
        assert(forall|k: int|
            0 <= k < rest.len() - 1 ==> #[trigger] rest[k] == path[k + 1] && rest[k + 1] == path[
                k + 2
            ]);
        lemma_path_decreases(s, rest);
        assert(rest[rest.len() - 1] == path[path.len() - 1]);
    }
}

/// The installed dependency graph is acyclic: no nonempty dependency
/// path leads from a package back to itself. This holds of every well
/// formed registry because a package's dependencies must already be
/// installed when it is installed, so edges only point backwards in
/// installation order.
pub proof fn lemma_registry_acyclic(s: Seq<(PackageId, LocalPackage)>, path: Seq<PackageId>)
    requires
        keys_unique(s),
        deps_point_earlier(s),
        path.len() >= 2,
        forall|k: int| 0 <= k < path.len() - 1 ==> edge(s, #[trigger] path[k], path[k + 1]),
    ensures
        path[0] != path[path.len() - 1],
{
    lemma_edge_decreases(s, path[0], path[1]);
    lemma_path_decreases(s, path);
    if path[0] == path[path.len() - 1] {
        assert(index_of(s, path[0]) <= index_of(s, path[0]) - (path.len() - 1));
    }
}

/// Whether the list holds the id.
fn contains_id(v: &Vec<PackageId>, id: PackageId) -> (b: bool)
    ensures
        b == v@.contains(id),
{
    let mut i: usize = 0;
    while i < v.len()
        invariant
            i <= v@.len(),
            forall|j: int| 0 <= j < i ==> v@[j] != id,
        decreases v@.len() - i,
    {
        if v[i] == id {
            return true;
        }
        i += 1;
    }
    false
}

/// Whether any id is listed twice.
fn has_duplicate(v: &Vec<PackageId>) -> (b: bool)
    ensures
        b == !v@.no_duplicates(),
{
    let mut i: usize = 0;
    while i < v.len()
        invariant
            i <= v@.len(),
            forall|a: int, b: int| 0 <= a < b < i ==> v@[a] != v@[b],
        decreases v@.len() - i,
    {
        let mut j: usize = 0;
        while j < i
            invariant
                j <= i,
                i < v@.len(),
                forall|a: int| 0 <= a < j ==> v@[a] != v@[i as int],
                forall|a: int, b: int| 0 <= a < b < i ==> v@[a] != v@[b],
            decreases i - j,
        {
            if v[j] == v[i] {
                return true;
            }
            j += 1;
        }
        i += 1;
    }
    proof {
        assert(v@.no_duplicates());
    }
    false
}

/// The system.
///
/// This keeps track of the installed packages and their associated
/// information, and holds the configured indexes and trustees.
pub struct System {
    /// The installed packages, oldest first, each under its id.
    pub installed: Vec<(PackageId, LocalPackage)>,
    /// The next id to hand out; every installed id is below it.
    pub next_id: u32,
    /// The package indexes.
    ///
    /// Sorted after reliability.
    pub indexes: Vec<Index>,
    /// Trusted keys.
    ///
    /// Sorted after trust.
    pub trustees: Vec<Trustee>,
}

impl System {
    /// The installed entries as a mathematical sequence.
    pub open spec fn entries(&self) -> Seq<(PackageId, LocalPackage)> {
        self.installed@
    }

    /// The registry's invariant: ids unique and below the allocation
    /// cursor, dependency edges pointing at earlier entries only (hence
    /// no cycle), no duplicate edge, and every reference count equal to
    /// the number of entries listing the id.
    pub open spec fn wf(&self) -> bool {
        &&& self.next_id <= 0x10000
        &&& self.entries().len() <= self.next_id
        &&& (forall|a: int|
            0 <= a < self.entries().len() ==> (#[trigger] self.entries()[a].0) < self.next_id)
        &&& keys_unique(self.entries())
        &&& deps_point_earlier(self.entries())
        &&& deps_no_duplicates(self.entries())
        &&& counts_consistent(self.entries())
    }

    /// A system with nothing installed, holding the given indexes and
    /// trustees.
    pub fn new(indexes: Vec<Index>, trustees: Vec<Trustee>) -> (r: System)
        ensures
            r.wf(),
            r.entries().len() == 0,
            r.next_id == 0,
            r.indexes == indexes,
            r.trustees == trustees,
    {
        System { installed: Vec::new(), next_id: 0, indexes, trustees }
    }

    /// Begins a resolution of `query` against this system's indexes and
    /// trustees.
    pub fn begin_resolve(&self, query: PackageQuery) -> (r: Resolver)
        ensures
            r.wf(),
            r.n_indexes == self.indexes@.len(),
            r.n_trustees == self.trustees@.len(),
            r.resolved@.len() == 0,
            self.indexes@.len() == 0 ==> r.failed == Some(
                crate::resolve::ResolveError::NotFound,
            ),
            self.indexes@.len() > 0 ==> r.awaiting_fetch() && (r.current matches Some(c)
                && c.query@ == query@ && c.next_index == 0 && c.chain@.len() == 0),
    {
        Resolver::new(query, self.indexes.len(), self.trustees.len())
    }

    /// The position of `id` among the installed entries.
    fn find_entry(&self, id: PackageId) -> (r: Option<usize>)
        ensures
            (match r {
                Some(i) => i < self.entries().len() && self.entries()[i as int].0 == id,
                None => !has_key(self.entries(), id),
            }),
    {
        let mut i: usize = 0;
        while i < self.installed.len()
            invariant
                i <= self.entries().len(),
                forall|j: int| 0 <= j < i ==> self.entries()[j].0 != id,
            decreases self.entries().len() - i,
        {
            if self.installed[i].0 == id {
                return Some(i);
            }
            i += 1;
        }
        None
    }


    /// Installs a package under a fresh id. Every listed dependency must
    /// already be installed, and listed at most once; each listed
    /// dependency gains this package as a dependent.
    pub fn install(&mut self, name: PackageName, dependency_ids: Vec<PackageId>) -> (r: Result<
        PackageId,
        RegistryError,
    >)
        requires
            old(self).wf(),
        ensures
            final(self).wf(),
            final(self).indexes == old(self).indexes,
            final(self).trustees == old(self).trustees,
            (match r {
                Err(RegistryError::DuplicateDependency) => !dependency_ids@.no_duplicates()
                    && final(self).entries() == old(self).entries() && final(self).next_id == old(self).next_id,
                Err(RegistryError::MissingDependency) => dependency_ids@.no_duplicates() && (
                exists|k: int|
                    0 <= k < dependency_ids@.len() && !has_key(
                        old(self).entries(),
                        #[trigger] dependency_ids@[k],
                    )) && final(self).entries() == old(self).entries() && final(self).next_id
                    == old(self).next_id,
                Err(RegistryError::IdsExhausted) => dependency_ids@.no_duplicates() && (forall|
                    k: int,
                |
                    0 <= k < dependency_ids@.len() ==> has_key(
                        old(self).entries(),
                        #[trigger] dependency_ids@[k],
                    )) && old(self).next_id == 0x10000 && final(self).entries() == old(self).entries() && final(self).next_id == old(self).next_id,
                Ok(id) => dependency_ids@.no_duplicates() && (forall|k: int|
                    0 <= k < dependency_ids@.len() ==> has_key(
                        old(self).entries(),
                        #[trigger] dependency_ids@[k],
                    )) && old(self).next_id < 0x10000 && id == old(self).next_id && final(self).next_id == old(self).next_id + 1 && final(self).entries() == bump(
                    old(self).entries(),
                    dependency_ids@,
                ).push((id, LocalPackage { name, dependency_for: 0, dependencies: dependency_ids })),
                _ => false,
            }),
    {
        let ghost s0 = self.installed@;
        if has_duplicate(&dependency_ids) {
            return Err(RegistryError::DuplicateDependency);
        }
        let mut k: usize = 0;
        while k < dependency_ids.len()
            invariant
                k <= dependency_ids@.len(),
                forall|j: int| 0 <= j < k ==> has_key(s0, #[trigger] dependency_ids@[j]),
                s0 == old(self).installed@,
                *self == *old(self),
                old(self).wf(),
                dependency_ids@.no_duplicates(),
            decreases dependency_ids@.len() - k,
        {
            match self.find_entry(dependency_ids[k]) {
                Some(i) => {
                    proof {
                        assert(s0[i as int].0 == dependency_ids@[k as int]);
                        assert(has_key(s0, dependency_ids@[k as int]));
                    }
                },
                None => {
                    return Err(RegistryError::MissingDependency);
                },
            }
            k += 1;
        }
        if self.next_id >= 0x10000 {
            return Err(RegistryError::IdsExhausted);
        }
        let id: PackageId = self.next_id as u16;
        let mut out: Vec<(PackageId, LocalPackage)> = Vec::new();
        while self.installed.len() > 0
            invariant
                old(self).wf(),
                self.next_id == old(self).next_id,
                old(self).next_id < 0x10000,
                s0 == old(self).installed@,
                self.indexes == old(self).indexes,
                self.trustees == old(self).trustees,
                out@.len() + self.installed@.len() == s0.len(),
                forall|j: int|
                    0 <= j < self.installed@.len() ==> self.installed@[j] == s0[out@.len() + j],
                forall|j: int| 0 <= j < out@.len() ==> out@[j] == bump(s0, dependency_ids@)[j],
            decreases self.installed@.len(),
        {
            let ghost done = out@.len() as int;
            let e = self.installed.remove(0);
            assert(e == s0[done]);
            if contains_id(&dependency_ids, e.0) {
                proof {
                    lemma_dependents_lt(s0, done);
                    assert(e.1.dependency_for as nat == dependents(s0, e.0));
                    assert(s0.len() <= 0xFFFF);
                }
                let bumped = (
                    e.0,
                    LocalPackage {
                        name: e.1.name,
                        dependency_for: e.1.dependency_for + 1,
                        dependencies: e.1.dependencies,
                    },
                );
                assert(bumped == bump(s0, dependency_ids@)[done]);
                out.push(bumped);
            } else {
                assert(e == bump(s0, dependency_ids@)[done]);
                out.push(e);
            }
        }
        proof {
            assert(out@ =~= bump(s0, dependency_ids@));
        }
        out.push((id, LocalPackage { name, dependency_for: 0, dependencies: dependency_ids }));
        self.installed = out;
        self.next_id = self.next_id + 1;
        let ghost s1 = self.installed@;
        let ghost newe = s1.last();
        proof {
            let deps = newe.1.dependencies@;
            let b = bump(s0, deps);
            assert(s1 == b.push(newe));
            assert(forall|a: int|
                0 <= a < s0.len() ==> (#[trigger] b[a]).0 == s0[a].0 && b[a].1.dependencies
                    == s0[a].1.dependencies);
            // every id stays unique and below the advanced cursor
            assert(forall|a: int| 0 <= a < s1.len() ==> (#[trigger] s1[a].0) < self.next_id);
            assert(keys_unique(s1));
            // edges still point at earlier entries
            assert forall|a: int, d: PackageId|
                0 <= a < s1.len() && #[trigger] s1[a].1.dependencies@.contains(d) implies exists|
                j: int,
            | 0 <= j < a && s1[j].0 == d by {
                if a < s0.len() {
                    assert(s0[a].1.dependencies@.contains(d));
                    let j = choose|j: int| 0 <= j < a && s0[j].0 == d;
                    assert(s1[j].0 == d);
                } else {
                    assert(has_key(s0, d));
                    let j = choose|j: int| 0 <= j < s0.len() && s0[j].0 == d;
                    assert(s1[j].0 == d);
                }
            }
            assert(deps_no_duplicates(s1));
            // the new entry cannot be listed as a dependency
            assert forall|j: int| 0 <= j < b.len() implies (#[trigger] b[j].0) != newe.0 by {}
            assert forall|a: int, d: PackageId|
                0 <= a < b.len() && #[trigger] b[a].1.dependencies@.contains(d) implies exists|
                j: int,
            | 0 <= j < a && b[j].0 == d by {
                assert(s0[a].1.dependencies@.contains(d));
                let j = choose|j: int| 0 <= j < a && s0[j].0 == d;
                assert(b[j].0 == d);
            }
            lemma_dependents_zero(b, newe.0);
            assert forall|a: int|
                0 <= a < s1.len() implies (#[trigger] s1[a].1.dependency_for) as nat == dependents(
                s1,
                s1[a].0,
            ) by {
                lemma_dependents_push(b, newe, s1[a].0);
                lemma_dependents_bump(s0, deps, s1[a].0);
                if a < s0.len() {
                    assert(s0[a].1.dependency_for as nat == dependents(s0, s0[a].0));
                    assert(s1[a] == b[a]);
                    lemma_dependents_lt(s0, a);
                    if deps.contains(s0[a].0) {
                        assert(b[a].1.dependency_for == s0[a].1.dependency_for + 1);
                        assert(newe.1.dependencies@.contains(s1[a].0));
                    } else {
                        assert(b[a].1.dependency_for == s0[a].1.dependency_for);
                        assert(!newe.1.dependencies@.contains(s1[a].0));
                    }
                } else {
                    assert(s1[a] == newe);
                    if deps.contains(newe.0) {
                        let kk = choose|kk: int| 0 <= kk < deps.len() && deps[kk] == newe.0;
                        assert(has_key(s0, deps[kk]));
                        let j = choose|j: int| 0 <= j < s0.len() && s0[j].0 == newe.0;
                        assert(false);
                    }
                }
            }
        }
        Ok(id)
    }


    /// Uninstalls the package under `id`. It must not be a dependency of
    /// any installed package; each of its own dependencies loses one
    /// dependent, potentially becoming removable itself (removal does
    /// not cascade).
    pub fn uninstall(&mut self, id: PackageId) -> (r: Result<(), RegistryError>)
        requires
            old(self).wf(),
        ensures
            final(self).wf(),
            final(self).indexes == old(self).indexes,
            final(self).trustees == old(self).trustees,
            final(self).next_id == old(self).next_id,
            (match r {
                Err(RegistryError::NotInstalled) => !has_key(old(self).entries(), id) && final(self).entries() == old(self).entries(),
                Err(RegistryError::InUse) => has_key(old(self).entries(), id) && old(self).entries()[index_of(old(self).entries(), id)].1.dependency_for != 0 && final(self).entries() == old(self).entries(),
                Ok(u) => has_key(old(self).entries(), id) && old(self).entries()[index_of(
                    old(self).entries(),
                    id,
                )].1.dependency_for == 0 && final(self).entries() == unbump(
                    old(self).entries().remove(index_of(old(self).entries(), id)),
                    old(self).entries()[index_of(old(self).entries(), id)].1.dependencies@,
                ),
                _ => false,
            }),
    {
        let ghost s0 = self.installed@;
        let i = match self.find_entry(id) {
            Some(i) => i,
            None => {
                return Err(RegistryError::NotInstalled);
            },
        };
        proof {
            assert(has_key(s0, id));
            let j = index_of(s0, id);
            assert(0 <= j < s0.len() && s0[j].0 == id);
            assert(j == i as int);
        }
        if self.installed[i].1.dependency_for != 0 {
            return Err(RegistryError::InUse);
        }
        let entry = self.installed.remove(i);
        let deps = entry.1.dependencies;
        let ghost s1 = self.installed@;
        proof {
            assert(s1 == s0.remove(i as int));
        }
        let mut t: usize = 0;
        while t < deps.len()
            invariant
                t <= deps@.len(),
                old(self).wf(),
                s0 == old(self).installed@,
                0 <= (i as int) < s0.len(),
                s0[i as int].0 == id,
                s0[i as int].1.dependencies@ == deps@,
                s0[i as int].1.dependency_for == 0,
                s1 == s0.remove(i as int),
                deps@.no_duplicates(),
                self.next_id == old(self).next_id,
                self.indexes == old(self).indexes,
                self.trustees == old(self).trustees,
                self.installed@ == unbump(s1, deps@.take(t as int)),
            decreases deps@.len() - t,
        {
            let ghost prev = self.installed@;
            let d = deps[t];
            // the dependency is installed: its edge pointed at an entry
            // earlier than the removed one, which is still present
            proof {
                assert(s0[i as int].1.dependencies@.contains(d));
                let j0 = choose|j0: int| 0 <= j0 < i as int && s0[j0].0 == d;
                assert(s1[j0] == s0[j0]);
                assert(unbump(s1, deps@.take(t as int))[j0].0 == d);
                assert(has_key(prev, d));
            }
            let j = match self.find_entry(d) {
                Some(j) => j,
                None => {
                    proof {
                        assert(false);
                    }
                    return Err(RegistryError::NotInstalled);
                },
            };
            let e = self.installed.remove(j);
            proof {
                // the count to lower is the original one: `d` occurs only
                // once in the list, so it was not lowered yet
                let j1 = choose|j1: int| 0 <= j1 < s1.len() && s1[j1].0 == d;
                assert(prev[j as int].0 == d);
                assert(forall|a: int, b: int| 0 <= a < b < s1.len() ==> s1[a].0 != s1[b].0) by {
                    assert(keys_unique(s0));
                    assert(forall|a: int|
                        0 <= a < s1.len() ==> s1[a] == s0[if a < i as int {
                            a
                        } else {
                            a + 1
                        }]);
                }
                assert(forall|a: int|
                    0 <= a < prev.len() ==> (#[trigger] prev[a]).0 == s1[a].0);
                assert(j as int == j1);
                assert(!deps@.take(t as int).contains(d)) by {
                    if deps@.take(t as int).contains(d) {
                        let x = choose|x: int| 0 <= x < t as int && deps@.take(t as int)[x] == d;
                        assert(deps@[x] == d && deps@[t as int] == d);
                    }
                }
                assert(e == s1[j1]);
                // the removed entry listed `d`, so the count is positive
                assert(s1[j1].1.dependency_for as nat == dependents(s0, d)) by {
                    assert(counts_consistent(s0));
                    assert(s0[if j1 < i as int {
                        j1
                    } else {
                        j1 + 1
                    }] == s1[j1]);
                }
                lemma_dependents_pos(s0, i as int, d);
            }
            let e2 = (
                e.0,
                LocalPackage {
                    name: e.1.name,
                    dependency_for: e.1.dependency_for - 1,
                    dependencies: e.1.dependencies,
                },
            );
            self.installed.insert(j, e2);
            proof {
                assert(self.installed@ =~= prev.update(j as int, e2));
                assert forall|a: int| 0 <= a < s1.len() implies self.installed@[a] == unbump(
                    s1,
                    deps@.take(t + 1),
                )[a] by {
                    assert(forall|x: int|
                        0 <= x < t + 1 ==> deps@.take(t + 1)[x] == deps@[x]);
                    assert(forall|x: int|
                        0 <= x < t ==> deps@.take(t as int)[x] == deps@[x]);
                    if a == j as int {
                        assert(deps@.take(t + 1).contains(deps@[t as int]));
                    } else {
                        assert(prev[a] == unbump(s1, deps@.take(t as int))[a]);
                        if deps@.take(t + 1).contains(s1[a].0) {
                            let x = choose|x: int|
                                0 <= x < t + 1 && #[trigger] deps@.take(t + 1)[x] == s1[a].0;
                            if x == t as int {
                                assert(s1[a].0 == d);
                                assert(false);
                            } else {
                                assert(deps@.take(t as int).contains(s1[a].0));
                            }
                        } else {
                            assert(!deps@.take(t as int).contains(s1[a].0)) by {
                                if deps@.take(t as int).contains(s1[a].0) {
                                    let x = choose|x: int|
                                        0 <= x < t as int && #[trigger] deps@.take(t as int)[x]
                                            == s1[a].0;
                                    assert(deps@.take(t + 1)[x] == s1[a].0);
                                }
                            }
                        }
                    }
                }
                assert(self.installed@ =~= unbump(s1, deps@.take(t + 1)));
            }
            t += 1;
        }
        proof {
            assert(deps@.take(deps@.len() as int) =~= deps@);
            let fin = unbump(s1, deps@);
            assert(self.installed@ == fin);
            // the registry stays well formed
            assert(forall|a: int|
                0 <= a < fin.len() ==> (#[trigger] fin[a]).0 == s1[a].0 && fin[a].1.dependencies
                    == s1[a].1.dependencies);
            assert(forall|a: int|
                0 <= a < s1.len() ==> s1[a] == s0[if a < i as int {
                    a
                } else {
                    a + 1
                }]);
            assert(keys_unique(fin));
            assert(deps_no_duplicates(fin));
            assert forall|a: int, d: PackageId|
                0 <= a < fin.len() && #[trigger] fin[a].1.dependencies@.contains(d) implies exists|
                j: int,
            | 0 <= j < a && fin[j].0 == d by {
                let a0 = if a < i as int {
                    a
                } else {
                    a + 1
                };
                assert(s0[a0].1.dependencies@.contains(d));
                let j0 = choose|j0: int| 0 <= j0 < a0 && s0[j0].0 == d;
                if j0 == i as int {
                    // nobody may depend on the removed entry
                    lemma_dependents_pos(s0, a0, d);
                    assert(counts_consistent(s0));
                    assert(s0[i as int].1.dependency_for as nat == dependents(s0, s0[i as int].0));
                    assert(false);
                } else {
                    let j1 = if j0 < i as int {
                        j0
                    } else {
                        j0 - 1
                    };
                    assert(s1[j1].0 == d && j1 < a);
                    assert(fin[j1].0 == d);
                }
            }
            assert forall|a: int|
                0 <= a < fin.len() implies (#[trigger] fin[a].1.dependency_for) as nat
                == dependents(fin, fin[a].0) by {
                let a0 = if a < i as int {
                    a
                } else {
                    a + 1
                };
                assert(s1[a] == s0[a0]);
                assert(counts_consistent(s0));
                assert(s0[a0].1.dependency_for as nat == dependents(s0, s0[a0].0));
                lemma_dependents_unbump(s1, deps@, fin[a].0);
                lemma_dependents_remove(s0, i as int, fin[a].0);
                if deps@.contains(s1[a].0) {
                    lemma_dependents_pos(s0, i as int, s1[a].0);
                } else {
                }
            }
        }
        Ok(())
    }

    /// Whether `id` is installed.
    pub fn is_installed(&self, id: PackageId) -> (b: bool)
        ensures
            b == has_key(self.entries(), id),
    {
        self.find_entry(id).is_some()
    }
}

} // verus!
