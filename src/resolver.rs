use vstd::prelude::*;
use vstd::set_lib::*;
use vstd::string::*;
use crate::key::AbsolutePackageKey;
use crate::status::{PackageStatus, PackageStatusError, status_error_text};
use crate::version::{Identifier, SemVer, Version, semver_of};

verus! {

/// Whether semver's requirement text `req` admits a version.
pub uninterp spec fn requirement_admits(req: Seq<char>, v: SemVer) -> bool;

/// Relies on semver::VersionReq::parse and VersionReq::matches: whether the
/// requirement text parses and admits the version depends on the two alone;
/// a text that does not parse admits nothing.
#[verifier::external_body]
fn requirement_matches(req: &str, v: &Version) -> (r: bool)
    ensures
        r == requirement_admits(req@, v@),
{
    let pre = v.pre.iter().map(|i| match i {
        Identifier::Numeric(n) => semver::Identifier::Numeric(*n),
        Identifier::AlphaNumeric(a) => semver::Identifier::AlphaNumeric(String::from_utf8_lossy(a).into_owned()),
    }).collect();
    let version = semver::Version { major: v.major, minor: v.minor, patch: v.patch, pre, build: Vec::new() };
    semver::VersionReq::parse(req).map(|r| r.matches(&version)).unwrap_or(false)
}

/// A declared dependency: a package id and a semver requirement on it.
pub struct Dependency {
    pub id: String,
    pub version: String,
}

/// One package of the loaded repositories. A catalog lists them in the order
/// of the configured repositories; a package id is looked up by its first
/// occurrence.
pub struct CatalogEntry {
    pub key: AbsolutePackageKey,
    pub version: String,
    pub status: PackageStatus,
    pub dependencies: Vec<Dependency>,
}

/// Why a dependency closure could not be resolved.
#[derive(Clone, Copy, Debug, PartialEq, Eq, Structural)]
pub enum PackageDependencyError {
    PackageNotFound,
    VersionNotFound,
    PackageStatusError(PackageStatusError),
    Cycle,
}

pub open spec fn dependency_error_text(e: PackageDependencyError) -> Seq<char> {
    match e {
        PackageDependencyError::PackageNotFound => "Error: Package not found"@,
        PackageDependencyError::VersionNotFound => "Error: Package version not found"@,
        PackageDependencyError::PackageStatusError(s) => status_error_text(s),
        PackageDependencyError::Cycle => "Error: Dependency cycle"@,
    }
}

impl PackageDependencyError {
    /// A human-readable description.
    pub fn description(&self) -> (r: String)
        ensures
            r@ == dependency_error_text(*self),
    {
        match self {
            PackageDependencyError::PackageNotFound => String::from_str("Error: Package not found"),
            PackageDependencyError::VersionNotFound => String::from_str("Error: Package version not found"),
            PackageDependencyError::PackageStatusError(s) => s.description(),
            PackageDependencyError::Cycle => String::from_str("Error: Dependency cycle"),
        }
    }
}

/// One step of a resolved install: the package, its version, how deep in
/// the dependency chain it was reached, and its current status.
pub struct PackageDependency {
    pub id: AbsolutePackageKey,
    pub version: String,
    pub level: usize,
    pub status: PackageStatus,
}

impl PackageDependency {
    /// Whether installing this step has nothing to do.
    pub fn is_no_op(&self) -> (r: bool)
        ensures
            r == (self.status == PackageStatus::UpToDate),
    {
        self.status == PackageStatus::UpToDate
    }
}

pub open spec fn lookup_from(cat: Seq<CatalogEntry>, id: Seq<char>, i: int) -> Option<int>
    decreases cat.len() - i,
{
    if i < 0 || i >= cat.len() {
        None
    } else if cat[i].key.id@ == id {
        Some(i)
    } else {
        lookup_from(cat, id, i + 1)
    }
}

/// The first catalog entry with the given package id.
pub open spec fn lookup(cat: Seq<CatalogEntry>, id: Seq<char>) -> Option<int> {
    lookup_from(cat, id, 0)
}

pub open spec fn deps_of(cat: Seq<CatalogEntry>, i: int) -> Seq<Dependency> {
    cat[i].dependencies@
}

/// The entry that the `k`-th dependency of entry `i` names.
pub open spec fn dep_target(cat: Seq<CatalogEntry>, i: int, k: int) -> Option<int> {
    lookup(cat, deps_of(cat, i)[k].id@)
}

/// The `k`-th dependency of entry `i` names an entry whose version meets
/// the requirement.
pub open spec fn dep_admitted(cat: Seq<CatalogEntry>, i: int, k: int) -> bool {
    match dep_target(cat, i, k) {
        Some(j) => match semver_of(cat[j].version@) {
            Some(v) => requirement_admits(deps_of(cat, i)[k].version@, v),
            None => false,
        },
        None => false,
    }
}

/// Entry `i` depends on entry `j` through an admitted dependency.
#[verifier::opaque]
pub open spec fn edge(cat: Seq<CatalogEntry>, i: int, j: int) -> bool {
    exists|k: int|
        0 <= k < deps_of(cat, i).len() && #[trigger] dep_target(cat, i, k) == Some(j)
            && dep_admitted(cat, i, k)
}

/// A path along dependency edges.
pub open spec fn is_walk(cat: Seq<CatalogEntry>, w: Seq<int>) -> bool {
    &&& w.len() > 0
    &&& forall|t: int| 0 <= t < w.len() ==> 0 <= #[trigger] w[t] < cat.len()
    &&& forall|t: int| 0 <= t < w.len() - 1 ==> edge(cat, #[trigger] w[t], w[t + 1])
}

/// Some path from the root comes back to a package it already passed.
pub open spec fn has_cycle_from(cat: Seq<CatalogEntry>, root: int) -> bool {
    exists|w: Seq<int>, i: int, j: int|
        is_walk(cat, w) && w[0] == root && 0 <= i < j < w.len() && #[trigger] w[i] == #[trigger] w[j]
}

/// Some package reachable from the root names a package that no entry has.
pub open spec fn reaches_missing(cat: Seq<CatalogEntry>, root: int) -> bool {
    exists|w: Seq<int>, k: int|
        is_walk(cat, w) && w[0] == root && 0 <= k < deps_of(cat, w.last()).len()
            && #[trigger] dep_target(cat, w.last(), k) is None
}

/// Some package reachable from the root has a dependency whose package
/// exists but whose version the requirement does not admit.
pub open spec fn reaches_unadmitted(cat: Seq<CatalogEntry>, root: int) -> bool {
    exists|w: Seq<int>, k: int|
        is_walk(cat, w) && w[0] == root && 0 <= k < deps_of(cat, w.last()).len()
            && dep_target(cat, w.last(), k) is Some && !#[trigger] dep_admitted(cat, w.last(), k)
}

/// Every dependency of every listed package is admitted and listed before it.
#[verifier::opaque]
pub open spec fn topological(cat: Seq<CatalogEntry>, order: Seq<usize>) -> bool {
    forall|p: int, k: int|
        0 <= p < order.len() && 0 <= k < deps_of(cat, order[p] as int).len() ==> {
            &&& #[trigger] dep_admitted(cat, order[p] as int, k)
            &&& exists|q: int| 0 <= q < p && dep_target(cat, order[p] as int, k) == Some(#[trigger] order[q] as int)
        }
}

/// Entry `p` is a dependency of a later entry one level above it.
pub open spec fn justified_later(cat: Seq<CatalogEntry>, order: Seq<usize>, levels: Seq<usize>, p: int) -> bool {
    exists|q: int|
        p < q < order.len() && #[trigger] edge(cat, order[q] as int, order[p] as int)
            && levels[q] + 1 == levels[p]
}

/// A resolved install of `root`: the root last at level 0, no package
/// twice, each dependency before its dependent, and nothing listed that the
/// root does not need.
pub open spec fn is_resolution(cat: Seq<CatalogEntry>, root: int, order: Seq<usize>, levels: Seq<usize>) -> bool {
    &&& order.len() > 0
    &&& order.last() == root
    &&& levels.len() == order.len()
    &&& levels.last() == 0
    &&& order.no_duplicates()
    &&& forall|p: int| 0 <= p < order.len() ==> #[trigger] order[p] < cat.len()
    &&& topological(cat, order)
    &&& forall|p: int| 0 <= p < order.len() - 1 ==> #[trigger] justified_later(cat, order, levels, p)
}

pub open spec fn as_ints(s: Seq<usize>) -> Seq<int> {
    s.map_values(|x: usize| x as int)
}

/// What each error of the resolver means.
pub open spec fn error_sound(cat: Seq<CatalogEntry>, root: int, e: PackageDependencyError) -> bool {
    match e {
        PackageDependencyError::PackageNotFound => reaches_missing(cat, root),
        PackageDependencyError::VersionNotFound => reaches_unadmitted(cat, root),
        PackageDependencyError::Cycle => has_cycle_from(cat, root),
        PackageDependencyError::PackageStatusError(_) => false,
    }
}

pub(crate) proof fn lemma_distinct_bounded(s: Seq<usize>, n: nat)
    requires
        s.no_duplicates(),
        forall|i: int| 0 <= i < s.len() ==> s[i] < n,
    ensures
        s.len() <= n,
{
    let si = as_ints(s);
    assert forall|i: int, j: int| 0 <= i < si.len() && 0 <= j < si.len() && i != j implies si[i] != si[j] by {
        assert(s[i] != s[j]);
    }
    assert(si.no_duplicates());
    si.unique_seq_to_set();
    lemma_int_range(0, n as int);
    assert(si.to_set().subset_of(set_int_range(0, n as int)));
    lemma_len_subset(si.to_set(), set_int_range(0, n as int));
}

fn find_package(cat: &Vec<CatalogEntry>, id: &String) -> (r: Option<usize>)
    ensures
        match r {
            Some(i) => lookup(cat@, id@) == Some(i as int),
            None => lookup(cat@, id@) is None,
        },
{
    let mut i: usize = 0;
    while i < cat.len()
        invariant
            i <= cat.len(),
            lookup(cat@, id@) == lookup_from(cat@, id@, i as int),
        decreases cat.len() - i,
    {
        if cat[i].key.id == *id {
            return Some(i);
        }
        i = i + 1;
    }
    None
}

/// Checks the `k`-th dependency of entry `i`: its package, then its version.
pub(crate) fn check_dependency(cat: &Vec<CatalogEntry>, i: usize, k: usize) -> (r: Result<usize, PackageDependencyError>)
    requires
        i < cat.len(),
        k < cat@[i as int].dependencies@.len(),
    ensures
        match r {
            Ok(j) => dep_target(cat@, i as int, k as int) == Some(j as int) && dep_admitted(cat@, i as int, k as int),
            Err(PackageDependencyError::PackageNotFound) => dep_target(cat@, i as int, k as int) is None,
            Err(PackageDependencyError::VersionNotFound) => dep_target(cat@, i as int, k as int) is Some
                && !dep_admitted(cat@, i as int, k as int),
            Err(_) => false,
        },
{
    let dep = &cat[i].dependencies[k];
    let j = match find_package(cat, &dep.id) {
        None => return Err(PackageDependencyError::PackageNotFound),
        Some(j) => j,
    };
    proof {
        assert(0 <= j < cat.len()) by {
            lemma_lookup_in_range(cat@, dep.id@, 0);
        }
    }
    let admitted = match Version::parse(cat[j].version.as_str()) {
        Some(v) => requirement_matches(dep.version.as_str(), &v),
        None => false,
    };
    if admitted {
        Ok(j)
    } else {
        Err(PackageDependencyError::VersionNotFound)
    }
}

pub(crate) proof fn lemma_lookup_in_range(cat: Seq<CatalogEntry>, id: Seq<char>, i: int)
    ensures
        lookup_from(cat, id, i) matches Some(j) ==> 0 <= j < cat.len() && i <= j,
    decreases cat.len() - i,
{
    if 0 <= i < cat.len() && cat[i].key.id@ != id {
        lemma_lookup_in_range(cat, id, i + 1);
    }
}

#[verifier::opaque]
spec fn all_justified(cat: Seq<CatalogEntry>, root: int, s: Search) -> bool {
    forall|p: int| 0 <= p < s.order@.len() ==> #[trigger] s.justified(cat, root, p)
}

/// The state of a depth-first search of the catalog.
struct Search {
    stack: Vec<usize>,
    on_stack: Vec<bool>,
    done: Vec<bool>,
    order: Vec<usize>,
    levels: Vec<usize>,
}

impl Search {
    spec fn wf(&self, cat: Seq<CatalogEntry>, root: int) -> bool {
        &&& self.wf_bookkeeping(cat, root)
        &&& self.levels@.len() == self.order@.len()
        &&& topological(cat, self.order@)
        &&& all_justified(cat, root, *self)
    }

    /// The arrays mirror the stack and the order, and the stack is a path
    /// from the root.
    #[verifier::opaque]
    spec fn wf_bookkeeping(&self, cat: Seq<CatalogEntry>, root: int) -> bool {
        let n = cat.len();
        &&& n <= usize::MAX
        &&& self.on_stack@.len() == n
        &&& self.done@.len() == n
        &&& self.stack@.no_duplicates()
        &&& self.order@.no_duplicates()
        &&& forall|t: int| 0 <= t < self.stack@.len() ==> #[trigger] self.stack@[t] < n
        &&& forall|p: int| 0 <= p < self.order@.len() ==> #[trigger] self.order@[p] < n
        &&& forall|i: usize| i < n ==> #[trigger] self.on_stack@[i as int] == self.stack@.contains(i)
        &&& forall|i: usize| i < n ==> #[trigger] self.done@[i as int] == self.order@.contains(i)
        &&& forall|i: int| 0 <= i < n && #[trigger] self.on_stack@[i] ==> !self.done@[i]
        &&& self.stack@.len() > 0 ==> self.stack@[0] == root
        &&& forall|t: int| 0 <= t < self.stack@.len() - 1
            ==> edge(cat, #[trigger] self.stack@[t] as int, self.stack@[t + 1] as int)
    }

    spec fn justified(&self, cat: Seq<CatalogEntry>, root: int, p: int) -> bool {
        ||| justified_later(cat, self.order@, self.levels@, p)
        ||| exists|s: int| 0 <= s < self.stack@.len()
            && #[trigger] edge(cat, self.stack@[s] as int, self.order@[p] as int)
            && self.levels@[p] == s + 1
        ||| (self.order@[p] as int == root && self.levels@[p] == 0)
    }
}

proof fn lemma_push_node(cat: Seq<CatalogEntry>, root: int, pre: Search, post: Search, node: usize)
    requires
        pre.wf(cat, root),
        node < cat.len(),
        !pre.on_stack@[node as int],
        !pre.done@[node as int],
        pre.stack@.len() == 0 ==> node as int == root,
        pre.stack@.len() > 0 ==> edge(cat, pre.stack@.last() as int, node as int),
        post.stack@ == pre.stack@.push(node),
        post.on_stack@ == pre.on_stack@.update(node as int, true),
        post.done@ == pre.done@,
        post.order@ == pre.order@,
        post.levels@ == pre.levels@,
    ensures
        post.wf(cat, root),
{
    reveal(all_justified);
    reveal(Search::wf_bookkeeping);
    let n = cat.len();
    assert forall|i: usize| i < n implies #[trigger] post.on_stack@[i as int] == post.stack@.contains(i) by {
        if i == node {
            assert(post.stack@[pre.stack@.len() as int] == node);
        } else {
            if pre.stack@.contains(i) {
                let t = choose|t: int| 0 <= t < pre.stack@.len() && pre.stack@[t] == i;
                assert(post.stack@[t] == i);
            }
            if post.stack@.contains(i) {
                let t = choose|t: int| 0 <= t < post.stack@.len() && post.stack@[t] == i;
                assert(t != pre.stack@.len());
                assert(pre.stack@[t] == i);
            }
        }
    }
    assert(!pre.stack@.contains(node));
    assert(post.stack@.no_duplicates()) by {
        assert forall|a: int, b: int| 0 <= a < b < post.stack@.len() implies post.stack@[a] != post.stack@[b] by {
            if b == pre.stack@.len() {
                assert(pre.stack@[a] == post.stack@[a]);
            }
        }
    }
    assert forall|t: int| 0 <= t < post.stack@.len() - 1
        implies edge(cat, #[trigger] post.stack@[t] as int, post.stack@[t + 1] as int) by {
        if t + 1 < pre.stack@.len() {
            assert(pre.stack@[t] == post.stack@[t]);
            assert(pre.stack@[t + 1] == post.stack@[t + 1]);
        }
    }
    assert forall|p: int| 0 <= p < post.order@.len() implies #[trigger] post.justified(cat, root, p) by {
        assert(pre.justified(cat, root, p));
        if !justified_later(cat, pre.order@, pre.levels@, p) && !(pre.order@[p] as int == root && pre.levels@[p] == 0) {
            let s = choose|s: int| 0 <= s < pre.stack@.len()
                && #[trigger] edge(cat, pre.stack@[s] as int, pre.order@[p] as int)
                && pre.levels@[p] == s + 1;
            assert(post.stack@[s] == pre.stack@[s]);
        }
    }
}

/// The search state after the node on top of the stack has all its
/// dependencies done and is moved from the stack to the order.
spec fn emit_step(cat: Seq<CatalogEntry>, root: int, pre: Search, post: Search, node: usize) -> bool {
        &&& pre.wf(cat, root)
        &&& pre.stack@.len() > 0
        &&& pre.stack@.last() == node
        &&& !pre.done@[node as int]
        &&& forall|k: int| 0 <= k < deps_of(cat, node as int).len() ==> #[trigger] dep_admitted(cat, node as int, k)
                && (dep_target(cat, node as int, k) matches Some(j) && pre.done@[j])
        &&& post.stack@ == pre.stack@.drop_last()
        &&& post.on_stack@ == pre.on_stack@.update(node as int, false)
        &&& post.done@ == pre.done@.update(node as int, true)
        &&& post.order@ == pre.order@.push(node)
        &&& post.stack@.len() <= usize::MAX
        &&& post.levels@ == pre.levels@.push(post.stack@.len() as usize)
        &&& post.stack@.len() == 0 ==> node as int == root
        &&& post.stack@.len() > 0 ==> edge(cat, post.stack@.last() as int, node as int)
}

proof fn lemma_emit_consistent(cat: Seq<CatalogEntry>, root: int, pre: Search, post: Search, node: usize)
    requires
        emit_step(cat, root, pre, post, node),
    ensures
        post.wf_bookkeeping(cat, root),
{
    reveal(Search::wf_bookkeeping);
    let n = cat.len();
    let q = pre.order@.len() as int;
    let sl = post.stack@.len() as int;
    assert(pre.stack@[sl] == node);
    assert(!pre.order@.contains(node));
    assert forall|t: int| 0 <= t < post.stack@.len() implies post.stack@[t] == pre.stack@[t] by {}
    assert forall|i: usize| i < n implies #[trigger] post.on_stack@[i as int] == post.stack@.contains(i) by {
        if post.stack@.contains(i) {
            let t = choose|t: int| 0 <= t < post.stack@.len() && post.stack@[t] == i;
            assert(pre.stack@[t] == i);
            assert(i != node);
        }
        if i != node && pre.stack@.contains(i) {
            let t = choose|t: int| 0 <= t < pre.stack@.len() && pre.stack@[t] == i;
            assert(t != sl);
            assert(post.stack@[t] == i);
        }
    }
    assert forall|i: usize| i < n implies #[trigger] post.done@[i as int] == post.order@.contains(i) by {
        if i == node {
            assert(post.order@[q] == node);
        } else {
            if pre.order@.contains(i) {
                let t = choose|t: int| 0 <= t < pre.order@.len() && pre.order@[t] == i;
                assert(post.order@[t] == i);
            }
            if post.order@.contains(i) {
                let t = choose|t: int| 0 <= t < post.order@.len() && post.order@[t] == i;
                assert(pre.order@[t] == i);
            }
        }
    }
    assert(post.order@.no_duplicates()) by {
        assert forall|a: int, b: int| 0 <= a < b < post.order@.len() implies post.order@[a] != post.order@[b] by {
            if b == q {
                assert(pre.order@[a] == post.order@[a]);
            }
        }
    }
    assert(post.stack@.no_duplicates()) by {
        assert forall|a: int, b: int| 0 <= a < b < post.stack@.len() implies post.stack@[a] != post.stack@[b] by {
            assert(pre.stack@[a] == post.stack@[a]);
            assert(pre.stack@[b] == post.stack@[b]);
        }
    }
    assert forall|t: int| 0 <= t < post.stack@.len() - 1
        implies edge(cat, #[trigger] post.stack@[t] as int, post.stack@[t + 1] as int) by {
        assert(pre.stack@[t] == post.stack@[t]);
        assert(pre.stack@[t + 1] == post.stack@[t + 1]);
    }
}

proof fn lemma_emit_topological(cat: Seq<CatalogEntry>, root: int, pre: Search, post: Search, node: usize)
    requires
        emit_step(cat, root, pre, post, node),
    ensures
        topological(cat, post.order@),
{
    reveal(topological);
    reveal(Search::wf_bookkeeping);
    let n = cat.len();
    let q = pre.order@.len() as int;
    let sl = post.stack@.len() as int;
    assert(pre.stack@[sl] == node);
    assert(!pre.order@.contains(node));
    assert forall|t: int| 0 <= t < post.stack@.len() implies post.stack@[t] == pre.stack@[t] by {}
    assert(topological(cat, post.order@)) by {
        assert forall|p: int, k: int|
            0 <= p < post.order@.len() && 0 <= k < deps_of(cat, post.order@[p] as int).len() implies {
                &&& #[trigger] dep_admitted(cat, post.order@[p] as int, k)
                &&& exists|r: int| 0 <= r < p && dep_target(cat, post.order@[p] as int, k) == Some(#[trigger] post.order@[r] as int)
            } by {
            if p < q {
                assert(post.order@[p] == pre.order@[p]);
                assert(dep_admitted(cat, pre.order@[p] as int, k));
                let r = choose|r: int| 0 <= r < p && dep_target(cat, pre.order@[p] as int, k) == Some(#[trigger] pre.order@[r] as int);
                assert(post.order@[r] == pre.order@[r]);
            } else {
                assert(post.order@[p] == node);
                assert(dep_admitted(cat, node as int, k));
                let j = dep_target(cat, node as int, k)->0;
                assert(pre.done@[j]);
                lemma_lookup_in_range(cat, deps_of(cat, node as int)[k].id@, 0);
                let ju = j as usize;
                assert(ju as int == j);
                assert(pre.done@[ju as int]);
                assert(pre.order@.contains(ju));
                let r = choose|r: int| 0 <= r < pre.order@.len() && pre.order@[r] == j as usize;
                assert(post.order@[r] == pre.order@[r]);
            }
        }
    }
}

proof fn lemma_emit_justified(cat: Seq<CatalogEntry>, root: int, pre: Search, post: Search, node: usize)
    requires
        emit_step(cat, root, pre, post, node),
    ensures
        all_justified(cat, root, post),
{
    reveal(all_justified);
    let n = cat.len();
    let q = pre.order@.len() as int;
    let sl = post.stack@.len() as int;
    assert(pre.stack@[sl] == node);
    assert forall|t: int| 0 <= t < post.stack@.len() implies post.stack@[t] == pre.stack@[t] by {}
    assert forall|p: int| 0 <= p < post.order@.len() implies #[trigger] post.justified(cat, root, p) by {
        if p == q {
            assert(post.order@[p] == node);
            assert(post.levels@[p] == sl);
            if sl > 0 {
                assert(post.stack@[sl - 1] == post.stack@.last());
                assert(edge(cat, post.stack@[sl - 1] as int, post.order@[p] as int));
            } else {
                assert(post.order@[p] as int == root && post.levels@[p] == 0);
            }
        } else {
            assert(post.order@[p] == pre.order@[p]);
            assert(post.levels@[p] == pre.levels@[p]);
            assert(pre.justified(cat, root, p));
            if justified_later(cat, pre.order@, pre.levels@, p) {
                let r = choose|r: int| p < r < pre.order@.len()
                    && #[trigger] edge(cat, pre.order@[r] as int, pre.order@[p] as int)
                    && pre.levels@[r] + 1 == pre.levels@[p];
                assert(post.order@[r] == pre.order@[r]);
                assert(post.levels@[r] == pre.levels@[r]);
                assert(justified_later(cat, post.order@, post.levels@, p));
            } else if !(pre.order@[p] as int == root && pre.levels@[p] == 0) {
                let s = choose|s: int| 0 <= s < pre.stack@.len()
                    && #[trigger] edge(cat, pre.stack@[s] as int, pre.order@[p] as int)
                    && pre.levels@[p] == s + 1;
                if s < sl {
                    assert(post.stack@[s] == pre.stack@[s]);
                } else {
                    assert(post.order@[q] == node);
                    assert(edge(cat, post.order@[q] as int, post.order@[p] as int));
                    assert(justified_later(cat, post.order@, post.levels@, p));
                }
            }
        }
    }
}

proof fn lemma_emit_node(cat: Seq<CatalogEntry>, root: int, pre: Search, post: Search, node: usize)
    requires
        emit_step(cat, root, pre, post, node),
    ensures
        post.wf(cat, root),
{
    lemma_emit_consistent(cat, root, pre, post, node);
    lemma_emit_topological(cat, root, pre, post, node);
    lemma_emit_justified(cat, root, pre, post, node);
}

/// The first `k` dependencies of `node` are admitted and done.
spec fn deps_done(cat: Seq<CatalogEntry>, node: int, k: int, done: Seq<bool>) -> bool {
    forall|kk: int| 0 <= kk < k ==> #[trigger] dep_admitted(cat, node, kk)
        && (dep_target(cat, node, kk) matches Some(j) && done[j])
}

proof fn lemma_deps_done_step(cat: Seq<CatalogEntry>, node: int, k: int, before: Seq<bool>, after: Seq<bool>)
    requires
        0 <= node < cat.len(),
        0 <= k < deps_of(cat, node).len(),
        before.len() == cat.len(),
        after.len() == cat.len(),
        deps_done(cat, node, k, before),
        forall|i: int| 0 <= i < cat.len() && before[i] ==> after[i],
        dep_admitted(cat, node, k),
        after[dep_target(cat, node, k)->0],
    ensures
        deps_done(cat, node, k + 1, after),
{
    assert forall|kk: int| 0 <= kk < k + 1 implies #[trigger] dep_admitted(cat, node, kk)
        && (dep_target(cat, node, kk) matches Some(j) && after[j]) by {
        if kk < k {
            assert(dep_admitted(cat, node, kk));
            let t = dep_target(cat, node, kk)->0;
            lemma_lookup_in_range(cat, deps_of(cat, node)[kk].id@, 0);
            assert(before[t]);
        }
    }
}

proof fn lemma_stack_walk(cat: Seq<CatalogEntry>, root: int, st: Search)
    requires
        st.wf(cat, root),
        st.stack@.len() > 0,
    ensures
        is_walk(cat, as_ints(st.stack@)),
        as_ints(st.stack@)[0] == root,
        as_ints(st.stack@).last() == st.stack@.last() as int,
{
    reveal(Search::wf_bookkeeping);
    let w = as_ints(st.stack@);
    assert forall|t: int| 0 <= t < w.len() - 1 implies edge(cat, #[trigger] w[t], w[t + 1]) by {
        assert(w[t] == st.stack@[t] as int);
        assert(w[t + 1] == st.stack@[t + 1] as int);
    }
}

impl Search {
    /// Visits `node` and everything it depends on, emitting each package
    /// after its dependencies.
    #[verifier::rlimit(40)]
    fn visit(&mut self, cat: &Vec<CatalogEntry>, Ghost(root): Ghost<int>, node: usize) -> (r: Result<(), PackageDependencyError>)
        requires
            old(self).wf(cat@, root),
            node < cat.len(),
            !old(self).on_stack@[node as int],
            !old(self).done@[node as int],
            old(self).stack@.len() == 0 ==> node as int == root,
            old(self).stack@.len() > 0 ==> edge(cat@, old(self).stack@.last() as int, node as int),
        ensures
            match r {
                Ok(()) => {
                    &&& final(self).wf(cat@, root)
                    &&& final(self).stack@ == old(self).stack@
                    &&& final(self).done@[node as int]
                    &&& final(self).order@.len() >= old(self).order@.len()
                    &&& final(self).order@.subrange(0, old(self).order@.len() as int) == old(self).order@
                    &&& forall|i: int| 0 <= i < cat.len() && old(self).done@[i] ==> final(self).done@[i]
                    &&& final(self).order@.last() == node
                    &&& final(self).levels@.last() == old(self).stack@.len()
                },
                Err(e) => error_sound(cat@, root, e),
            },
        decreases cat.len() - old(self).stack@.len(),
    {
        proof {
            reveal(Search::wf_bookkeeping);
            assert(!self.stack@.contains(node));
            assert(self.stack@.push(node).no_duplicates()) by {
                assert forall|a: int, b: int| 0 <= a < b < self.stack@.len() + 1
                    implies self.stack@.push(node)[a] != self.stack@.push(node)[b] by {
                    if b == self.stack@.len() {
                        assert(self.stack@[a] != node);
                    } else {
                        assert(self.stack@[a] != self.stack@[b]);
                    }
                }
            }
            lemma_distinct_bounded(self.stack@.push(node), cat.len() as nat);
        }
        let ghost pre = *self;
        self.stack.push(node);
        self.on_stack.set(node, true);
        proof {
            lemma_push_node(cat@, root, pre, *self, node);
        }
        assert(self.stack@.last() == node);
        let ghost entry = *self;
        let n_deps = cat[node].dependencies.len();
        let mut k: usize = 0;
        while k < n_deps
            invariant
                self.wf(cat@, root),
                self.stack@ == old(self).stack@.push(node),
                node < cat.len(),
                old(self).stack@.len() < cat.len(),
                n_deps == deps_of(cat@, node as int).len(),
                k <= n_deps,
                !self.done@[node as int],
                self.order@.len() >= old(self).order@.len(),
                self.order@.subrange(0, old(self).order@.len() as int) == old(self).order@,
                forall|i: int| 0 <= i < cat.len() && old(self).done@[i] ==> self.done@[i],
                deps_done(cat@, node as int, k as int, self.done@),
            decreases n_deps - k,
        {
            let j = match check_dependency(cat, node, k) {
                Ok(j) => j,
                Err(e) => {
                    proof {
                        lemma_stack_walk(cat@, root, *self);
                        let w = as_ints(self.stack@);
                        assert(w.last() == node as int);
                        if e == PackageDependencyError::PackageNotFound {
                            assert(dep_target(cat@, w.last(), k as int) is None);
                        } else {
                            assert(!dep_admitted(cat@, w.last(), k as int));
                        }
                    }
                    return Err(e);
                },
            };
            proof {
                reveal(edge);
                assert(edge(cat@, node as int, j as int));
                reveal(Search::wf_bookkeeping);
                lemma_lookup_in_range(cat@, deps_of(cat@, node as int)[k as int].id@, 0);
            }
            if self.on_stack[j] {
                proof {
                    reveal(Search::wf_bookkeeping);
                    lemma_stack_walk(cat@, root, *self);
                    let w0 = as_ints(self.stack@);
                    let w = w0.push(j as int);
                    assert(self.stack@.contains(j));
                    let t = choose|t: int| 0 <= t < self.stack@.len() && self.stack@[t] == j;
                    assert(w[t] == j as int);
                    assert(w[w.len() - 1] == j as int);
                    assert(is_walk(cat@, w)) by {
                        assert forall|u: int| 0 <= u < w.len() - 1 implies edge(cat@, #[trigger] w[u], w[u + 1]) by {
                            if u < w0.len() - 1 {
                                assert(w[u] == w0[u] && w[u + 1] == w0[u + 1]);
                            } else {
                                assert(w[u] == node as int);
                            }
                        }
                    }
                    assert(w[0] == root);
                }
                return Err(PackageDependencyError::Cycle);
            }
            let ghost prev = *self;
            if !self.done[j] {
                let ghost before = *self;
                proof {
                    assert(self.stack@.last() == node);
                }
                match self.visit(cat, Ghost(root), j) {
                    Ok(()) => {},
                    Err(e) => {
                        return Err(e);
                    },
                }
                proof {
                    assert forall|i: int| 0 <= i < cat.len() && before.done@[i] implies self.done@[i] by {}
                    assert forall|i: int| 0 <= i < cat.len() && prev.done@[i] implies self.done@[i] by {}
                    assert(self.order@.subrange(0, old(self).order@.len() as int) =~= old(self).order@) by {
                        assert(self.order@.subrange(0, before.order@.len() as int) == before.order@);
                        assert forall|x: int| 0 <= x < old(self).order@.len() implies self.order@[x] == old(self).order@[x] by {
                            assert(self.order@[x] == before.order@[x]);
                        }
                    }
                }
            }
            proof {
                reveal(Search::wf_bookkeeping);
                assert(self.stack@[old(self).stack@.len() as int] == node);
                assert(self.stack@.contains(node));
                assert(self.on_stack@[node as int]);
                assert(self.done@[j as int]);
                assert(dep_admitted(cat@, node as int, k as int));
                lemma_deps_done_step(cat@, node as int, k as int, prev.done@, self.done@);
            }
            k = k + 1;
        }
        let ghost last = *self;
        self.stack.pop();
        self.on_stack.set(node, false);
        self.done.set(node, true);
        let level = self.stack.len();
        self.order.push(node);
        self.levels.push(level);
        proof {
            assert(self.stack@ == last.stack@.drop_last());
            assert(emit_step(cat@, root, last, *self, node));
            lemma_emit_node(cat@, root, last, *self, node);
            assert(self.order@.subrange(0, old(self).order@.len() as int) =~= old(self).order@) by {
                assert forall|x: int| 0 <= x < old(self).order@.len() implies self.order@[x] == old(self).order@[x] by {
                    assert(self.order@[x] == last.order@[x]);
                }
            }
        }
        Ok(())
    }
}

/// A resolution reaches no cycle, no missing package and no unadmitted
/// version from its root: a cyclic dependency graph has no resolution.
pub proof fn lemma_resolution_acyclic(cat: Seq<CatalogEntry>, root: int, order: Seq<usize>, levels: Seq<usize>)
    requires
        is_resolution(cat, root, order, levels),
    ensures
        !has_cycle_from(cat, root),
        !reaches_missing(cat, root),
        !reaches_unadmitted(cat, root),
{
    assert forall|w: Seq<int>, i: int, j: int|
        is_walk(cat, w) && w[0] == root && 0 <= i < j < w.len() implies #[trigger] w[i] != #[trigger] w[j] by {
        lemma_walk_positions_strict(cat, root, order, levels, w, i, j);
    }
    assert forall|w: Seq<int>, k: int|
        is_walk(cat, w) && w[0] == root && 0 <= k < deps_of(cat, w.last()).len() implies
        #[trigger] dep_target(cat, w.last(), k) is Some && dep_admitted(cat, w.last(), k) by {
        lemma_walk_descends(cat, root, order, levels, w, w.len() - 1);
        let q = choose|q: int| 0 <= q < order.len() && order[q] as int == w[w.len() - 1];
        reveal(topological);
        assert(dep_admitted(cat, order[q] as int, k));
    }
}

/// Each package along a walk from the root is listed, and listed earlier
/// the further along the walk it is.
pub(crate) proof fn lemma_walk_descends(cat: Seq<CatalogEntry>, root: int, order: Seq<usize>, levels: Seq<usize>, w: Seq<int>, t: int)
    requires
        is_resolution(cat, root, order, levels),
        is_walk(cat, w),
        w[0] == root,
        0 <= t < w.len(),
    ensures
        exists|q: int| 0 <= q < order.len() && order[q] as int == w[t] && q <= order.len() - 1 - t,
    decreases t,
{
    if t == 0 {
        assert(order[order.len() - 1] as int == w[0]);
    } else {
        lemma_walk_descends(cat, root, order, levels, w, t - 1);
        let q = choose|q: int| 0 <= q < order.len() && order[q] as int == w[t - 1] && q <= order.len() - 1 - (t - 1);
        assert(edge(cat, w[t - 1], w[t]));
        reveal(edge);
        let k = choose|k: int| 0 <= k < deps_of(cat, w[t - 1]).len() && #[trigger] dep_target(cat, w[t - 1], k) == Some(w[t])
            && dep_admitted(cat, w[t - 1], k);
        reveal(topological);
        assert(dep_admitted(cat, order[q] as int, k));
        let r = choose|r: int| 0 <= r < q && dep_target(cat, order[q] as int, k) == Some(#[trigger] order[r] as int);
        assert(order[r] as int == w[t]);
    }
}

/// Along a walk from the root, later packages sit strictly earlier in the
/// order.
proof fn lemma_walk_positions_strict(cat: Seq<CatalogEntry>, root: int, order: Seq<usize>, levels: Seq<usize>, w: Seq<int>, i: int, j: int)
    requires
        is_resolution(cat, root, order, levels),
        is_walk(cat, w),
        w[0] == root,
        0 <= i < j < w.len(),
    ensures
        w[i] != w[j],
    decreases j - i,
{
    lemma_walk_position_of(cat, root, order, levels, w, i);
    lemma_walk_position_of(cat, root, order, levels, w, j);
    lemma_walk_order_decreasing(cat, root, order, levels, w, i, j);
}

spec fn position_of(order: Seq<usize>, x: int) -> int {
    choose|q: int| 0 <= q < order.len() && order[q] as int == x
}

proof fn lemma_walk_position_of(cat: Seq<CatalogEntry>, root: int, order: Seq<usize>, levels: Seq<usize>, w: Seq<int>, t: int)
    requires
        is_resolution(cat, root, order, levels),
        is_walk(cat, w),
        w[0] == root,
        0 <= t < w.len(),
    ensures
        0 <= position_of(order, w[t]) < order.len(),
        order[position_of(order, w[t])] as int == w[t],
{
    lemma_walk_descends(cat, root, order, levels, w, t);
}

proof fn lemma_walk_order_decreasing(cat: Seq<CatalogEntry>, root: int, order: Seq<usize>, levels: Seq<usize>, w: Seq<int>, i: int, j: int)
    requires
        is_resolution(cat, root, order, levels),
        is_walk(cat, w),
        w[0] == root,
        0 <= i < j < w.len(),
    ensures
        position_of(order, w[j]) < position_of(order, w[i]),
    decreases j - i,
{
    lemma_walk_position_of(cat, root, order, levels, w, j - 1);
    lemma_walk_position_of(cat, root, order, levels, w, j);
    let q = position_of(order, w[j - 1]);
    assert(edge(cat, w[j - 1], w[j]));
    reveal(edge);
    let k = choose|k: int| 0 <= k < deps_of(cat, w[j - 1]).len() && #[trigger] dep_target(cat, w[j - 1], k) == Some(w[j])
        && dep_admitted(cat, w[j - 1], k);
    reveal(topological);
    assert(dep_admitted(cat, order[q] as int, k));
    let r = choose|r: int| 0 <= r < q && dep_target(cat, order[q] as int, k) == Some(#[trigger] order[r] as int);
    assert(order[r] as int == w[j]);
    let pj = position_of(order, w[j]);
    assert(order[pj] == order[r]);
    assert(pj == r);
    if i < j - 1 {
        lemma_walk_order_decreasing(cat, root, order, levels, w, i, j - 1);
    }
}

/// Resolves the install of catalog entry `root`: the packages to install,
/// dependencies first and the root last, with the level at which each was
/// reached.
pub fn resolve_order(cat: &Vec<CatalogEntry>, root: usize) -> (r: Result<(Vec<usize>, Vec<usize>), PackageDependencyError>)
    requires
        root < cat.len(),
    ensures
        match r {
            Ok((order, levels)) => is_resolution(cat@, root as int, order@, levels@),
            Err(e) => error_sound(cat@, root as int, e),
        },
{
    let n = cat.len();
    let mut on_stack: Vec<bool> = Vec::new();
    let mut done: Vec<bool> = Vec::new();
    let mut i: usize = 0;
    while i < n
        invariant
            i <= n,
            n == cat.len(),
            on_stack@.len() == i,
            done@.len() == i,
            forall|t: int| 0 <= t < i ==> !on_stack@[t] && !done@[t],
        decreases n - i,
    {
        on_stack.push(false);
        done.push(false);
        i = i + 1;
    }
    let mut search = Search { stack: Vec::new(), on_stack, done, order: Vec::new(), levels: Vec::new() };
    proof {
        reveal(Search::wf_bookkeeping);
        reveal(topological);
        reveal(all_justified);
        assert(search.wf(cat@, root as int));
    }
    match search.visit(cat, Ghost(root as int), root) {
        Ok(()) => {},
        Err(e) => {
            return Err(e);
        },
    }
    proof {
        reveal(all_justified);
        reveal(Search::wf_bookkeeping);
        let order = search.order@;
        assert forall|p: int| 0 <= p < order.len() - 1 implies #[trigger] justified_later(cat@, order, search.levels@, p) by {
            assert(search.justified(cat@, root as int, p));
            if order[p] as int == root {
                assert(order[p] == order[order.len() - 1]);
            }
        }
    }
    Ok((search.order, search.levels))
}

/// `d` is the install step for entry `e`, reached at `level`.
pub open spec fn is_step_for(d: PackageDependency, e: CatalogEntry, level: usize) -> bool {
    &&& d.id@ == e.key@
    &&& d.version@ == e.version@
    &&& d.status == e.status
    &&& d.level == level
}

/// Resolves the install of the package with id `root_id`: the install steps,
/// dependencies first and the root last.
pub fn resolve_install(cat: &Vec<CatalogEntry>, root_id: &str) -> (r: Result<Vec<PackageDependency>, PackageDependencyError>)
    ensures
        lookup(cat@, root_id@) is None ==> r == Err::<Vec<PackageDependency>, PackageDependencyError>(
            PackageDependencyError::PackageNotFound,
        ),
        lookup(cat@, root_id@) matches Some(root) ==> match r {
            Ok(list) => exists|order: Seq<usize>, levels: Seq<usize>|
                #[trigger] is_resolution(cat@, root, order, levels) && list@.len() == order.len()
                    && forall|p: int| 0 <= p < order.len() ==> is_step_for(#[trigger] list@[p], cat@[order[p] as int], levels[p]),
            Err(e) => error_sound(cat@, root, e),
        },
{
    let id = String::from_str(root_id);
    let root = match find_package(cat, &id) {
        None => return Err(PackageDependencyError::PackageNotFound),
        Some(i) => i,
    };
    proof {
        lemma_lookup_in_range(cat@, id@, 0);
    }
    let (order, levels) = resolve_order(cat, root)?;
    let mut list: Vec<PackageDependency> = Vec::new();
    let mut p: usize = 0;
    while p < order.len()
        invariant
            is_resolution(cat@, root as int, order@, levels@),
            p <= order.len(),
            list@.len() == p,
            forall|t: int| 0 <= t < p ==> is_step_for(#[trigger] list@[t], cat@[order@[t] as int], levels@[t]),
        decreases order.len() - p,
    {
        let e = &cat[order[p]];
        list.push(PackageDependency {
            id: e.key.duplicate(),
            version: e.version.clone(),
            level: levels[p],
            status: e.status,
        });
        p = p + 1;
    }
    Ok(list)
}

} // verus!
