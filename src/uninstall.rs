use vstd::prelude::*;
use crate::resolver::{
    CatalogEntry, PackageDependencyError, check_dependency, edge, error_sound, has_cycle_from,
    is_resolution, is_walk, justified_later, lemma_distinct_bounded, lemma_resolution_acyclic,
    lemma_walk_descends, resolve_order, deps_of, dep_target, dep_admitted,
};
use crate::status::PackageStatus;

verus! {

/// Some path of dependencies leads from `from` to `to`.
pub open spec fn reaches(cat: Seq<CatalogEntry>, from: int, to: int) -> bool {
    exists|w: Seq<int>| #[trigger] is_walk(cat, w) && w[0] == from && w.last() == to
}

/// The package has something installed to remove.
pub open spec fn installed(cat: Seq<CatalogEntry>, i: int) -> bool {
    cat[i].status != PackageStatus::NotInstalled
}

/// The packages to remove along with `root`: the installed ones whose
/// dependency closure contains it.
pub open spec fn depends_on_root(cat: Seq<CatalogEntry>, root: int, i: int) -> bool {
    0 <= i < cat.len() && i != root && installed(cat, i) && reaches(cat, i, root)
}

/// An uninstall of `root`: every installed package that needs `root`, each
/// before the packages it depends on, and `root` last.
pub open spec fn is_uninstall_plan(cat: Seq<CatalogEntry>, root: int, plan: Seq<usize>) -> bool {
    &&& plan.len() > 0
    &&& plan.last() == root
    &&& plan.no_duplicates()
    &&& forall|p: int| 0 <= p < plan.len() - 1 ==> depends_on_root(cat, root, #[trigger] plan[p] as int)
    &&& forall|i: int| depends_on_root(cat, root, i) ==> #[trigger] plan.contains(i as usize)
    &&& forall|p: int, q: int|
        0 <= p < plan.len() && 0 <= q < plan.len() && #[trigger] edge(cat, plan[p] as int, plan[q] as int) ==> p < q
}

/// Each package that a resolution lists is reachable from its root.
proof fn lemma_listed_reachable(cat: Seq<CatalogEntry>, root: int, order: Seq<usize>, levels: Seq<usize>, p: int)
    requires
        is_resolution(cat, root, order, levels),
        0 <= p < order.len(),
    ensures
        reaches(cat, root, order[p] as int),
    decreases order.len() - p,
{
    if p == order.len() - 1 {
        let w = seq![root];
        assert(is_walk(cat, w));
    } else {
        assert(justified_later(cat, order, levels, p));
        let q = choose|q: int|
            p < q < order.len() && #[trigger] edge(cat, order[q] as int, order[p] as int)
                && levels[q] + 1 == levels[p];
        lemma_listed_reachable(cat, root, order, levels, q);
        let w = choose|w: Seq<int>| #[trigger] is_walk(cat, w) && w[0] == root && w.last() == order[q] as int;
        let w2 = w.push(order[p] as int);
        assert forall|t: int| 0 <= t < w2.len() - 1 implies edge(cat, #[trigger] w2[t], w2[t + 1]) by {
            if t < w.len() - 1 {
                assert(w2[t] == w[t] && w2[t + 1] == w[t + 1]);
            }
        }
        assert(is_walk(cat, w2));
    }
}

/// A resolution from `i` lists `root` exactly when `i` reaches `root`.
proof fn lemma_resolution_lists(cat: Seq<CatalogEntry>, i: int, order: Seq<usize>, levels: Seq<usize>, root: usize)
    requires
        is_resolution(cat, i, order, levels),
    ensures
        order.contains(root) <==> reaches(cat, i, root as int),
{
    if order.contains(root) {
        let p = choose|p: int| 0 <= p < order.len() && order[p] == root;
        lemma_listed_reachable(cat, i, order, levels, p);
    }
    if reaches(cat, i, root as int) {
        let w = choose|w: Seq<int>| #[trigger] is_walk(cat, w) && w[0] == i && w.last() == root as int;
        lemma_walk_descends(cat, i, order, levels, w, w.len() - 1);
        let q = choose|q: int| 0 <= q < order.len() && order[q] as int == w[w.len() - 1] && q <= order.len() - 1 - (w.len() - 1);
        assert(order[q] == root);
    }
}

/// Whether entry `i` depends directly on entry `j`.
fn depends_directly(cat: &Vec<CatalogEntry>, i: usize, j: usize) -> (r: bool)
    requires
        i < cat.len(),
    ensures
        r == edge(cat@, i as int, j as int),
{
    let n_deps = cat[i].dependencies.len();
    let mut k: usize = 0;
    while k < n_deps
        invariant
            i < cat.len(),
            n_deps == deps_of(cat@, i as int).len(),
            k <= n_deps,
            forall|kk: int| 0 <= kk < k ==> !(#[trigger] dep_target(cat@, i as int, kk) == Some(j as int)
                && dep_admitted(cat@, i as int, kk)),
        decreases n_deps - k,
    {
        match check_dependency(cat, i, k) {
            Ok(t) => {
                if t == j {
                    proof {
                        reveal(edge);
                    }
                    return true;
                }
            },
            Err(_) => {},
        }
        k = k + 1;
    }
    proof {
        reveal(edge);
    }
    false
}

fn contains_index(v: &Vec<usize>, x: usize) -> (r: bool)
    ensures
        r == v@.contains(x),
{
    let mut i: usize = 0;
    while i < v.len()
        invariant
            i <= v@.len(),
            forall|t: int| 0 <= t < i ==> v@[t] != x,
        decreases v.len() - i,
    {
        if v[i] == x {
            return true;
        }
        i = i + 1;
    }
    false
}

spec fn pred_in(cat: Seq<CatalogEntry>, rem: Seq<bool>, j: int) -> int {
    choose|i: int| 0 <= i < rem.len() && rem[i] && #[trigger] edge(cat, i, j)
}

spec fn back_chain(cat: Seq<CatalogEntry>, rem: Seq<bool>, j0: int, t: nat) -> int
    decreases t,
{
    if t == 0 {
        j0
    } else {
        pred_in(cat, rem, back_chain(cat, rem, j0, (t - 1) as nat))
    }
}

proof fn lemma_back_chain(cat: Seq<CatalogEntry>, rem: Seq<bool>, j0: int, t: nat)
    requires
        0 <= j0 < rem.len(),
        rem[j0],
        forall|j: int| 0 <= j < rem.len() && rem[j] ==> exists|i: int| 0 <= i < rem.len() && rem[i] && #[trigger] edge(cat, i, j),
    ensures
        0 <= back_chain(cat, rem, j0, t) < rem.len(),
        rem[back_chain(cat, rem, j0, t)],
        edge(cat, back_chain(cat, rem, j0, t + 1), back_chain(cat, rem, j0, t)),
    decreases t,
{
    if t > 0 {
        lemma_back_chain(cat, rem, j0, (t - 1) as nat);
    }
    let c = back_chain(cat, rem, j0, t);
    assert(exists|i: int| 0 <= i < rem.len() && rem[i] && #[trigger] edge(cat, i, c));
}

/// When every remaining package has a remaining dependent, following
/// dependents backwards must revisit one: one of them lies on a cycle.
proof fn lemma_never_stuck(cat: Seq<CatalogEntry>, rem: Seq<bool>, j0: int)
    requires
        rem.len() == cat.len(),
        cat.len() <= usize::MAX,
        0 <= j0 < rem.len(),
        rem[j0],
        forall|j: int| 0 <= j < rem.len() && rem[j] ==> exists|i: int| 0 <= i < rem.len() && rem[i] && #[trigger] edge(cat, i, j),
    ensures
        exists|i: int| 0 <= i < rem.len() && rem[i] && has_cycle_from(cat, i),
{
    let n = rem.len();
    let c = Seq::new(n + 1, |t: int| back_chain(cat, rem, j0, t as nat) as usize);
    assert forall|t: int| 0 <= t < c.len() implies c[t] < n by {
        lemma_back_chain(cat, rem, j0, t as nat);
    }
    if c.no_duplicates() {
        lemma_distinct_bounded(c, n);
    }
    let (a, b) = choose|a: int, b: int| 0 <= a < c.len() && 0 <= b < c.len() && a != b && c[a] == c[b];
    let (a, b) = if a < b { (a, b) } else { (b, a) };
    lemma_back_chain(cat, rem, j0, a as nat);
    lemma_back_chain(cat, rem, j0, b as nat);
    let w = Seq::new((b + 1) as nat, |s: int| back_chain(cat, rem, j0, (b - s) as nat));
    assert forall|t: int| 0 <= t < w.len() implies 0 <= #[trigger] w[t] < cat.len() by {
        lemma_back_chain(cat, rem, j0, (b - t) as nat);
    }
    assert forall|t: int| 0 <= t < w.len() - 1 implies edge(cat, #[trigger] w[t], w[t + 1]) by {
        lemma_back_chain(cat, rem, j0, (b - t - 1) as nat);
        assert((b - t - 1) as nat + 1 == (b - t) as nat);
    }
    assert(is_walk(cat, w));
    assert(w[0] == back_chain(cat, rem, j0, b as nat));
    assert(w[b - a] == back_chain(cat, rem, j0, a as nat));
    assert(w[0] == w[b - a]);
    assert(has_cycle_from(cat, w[0]));
    assert(rem[w[0]]);
}

/// An uninstall error comes from a package (the root, or an installed one)
/// whose own dependency closure cannot be resolved.
pub open spec fn uninstall_error_sound(cat: Seq<CatalogEntry>, root: int, e: PackageDependencyError) -> bool {
    exists|i: int| 0 <= i < cat.len() && (i == root || installed(cat, i)) && #[trigger] error_sound(cat, i, e)
}

/// Resolves the uninstall of catalog entry `root`: the installed packages
/// that need it, dependents before what they depend on, then `root`.
pub fn resolve_uninstall(cat: &Vec<CatalogEntry>, root: usize) -> (r: Result<Vec<usize>, PackageDependencyError>)
    requires
        root < cat.len(),
    ensures
        match r {
            Ok(plan) => is_uninstall_plan(cat@, root as int, plan@),
            Err(e) => uninstall_error_sound(cat@, root as int, e),
        },
{
    let n = cat.len();
    let mut member: Vec<bool> = Vec::new();
    let mut i: usize = 0;
    while i < n
        invariant
            n == cat.len(),
            root < n,
            i <= n,
            member@.len() == i,
            forall|t: int| 0 <= t < i ==> #[trigger] member@[t] == depends_on_root(cat@, root as int, t),
            forall|t: int| 0 <= t < i && (t == root || installed(cat@, t)) ==> !has_cycle_from(cat@, t),
        decreases n - i,
    {
        if i == root || cat[i].status != PackageStatus::NotInstalled {
            let (order, levels) = match resolve_order(cat, i) {
                Ok(x) => x,
                Err(e) => {
                    proof {
                        assert(error_sound(cat@, i as int, e));
                    }
                    return Err(e);
                },
            };
            proof {
                lemma_resolution_acyclic(cat@, i as int, order@, levels@);
                lemma_resolution_lists(cat@, i as int, order@, levels@, root);
            }
            let needs = i != root && contains_index(&order, root);
            member.push(needs);
        } else {
            member.push(false);
        }
        i = i + 1;
    }
    let ghost mem = member@;
    let mut remaining = member;
    let mut plan: Vec<usize> = Vec::new();
    loop
        invariant
            n == cat.len(),
            root < n,
            mem.len() == n,
            remaining@.len() == n,
            forall|t: int| 0 <= t < n ==> #[trigger] mem[t] == depends_on_root(cat@, root as int, t),
            forall|t: int| 0 <= t < n && (t == root || installed(cat@, t)) ==> !has_cycle_from(cat@, t),
            forall|t: int| 0 <= t < n && #[trigger] remaining@[t] ==> mem[t],
            forall|t: int| 0 <= t < n && mem[t] ==> (remaining@[t] <==> !plan@.contains(t as usize)),
            forall|p: int| 0 <= p < plan@.len() ==> #[trigger] plan@[p] < n && mem[plan@[p] as int],
            plan@.no_duplicates(),
            plan@.len() <= n,
            forall|p: int, t: int|
                0 <= p < plan@.len() && 0 <= t < n && mem[t] && #[trigger] edge(cat@, t, plan@[p] as int)
                    ==> plan@.take(p).contains(t as usize),
        ensures
            forall|t: int| 0 <= t < n ==> !#[trigger] remaining@[t],
            forall|t: int| 0 <= t < n && mem[t] ==> (remaining@[t] <==> !plan@.contains(t as usize)),
            forall|p: int| 0 <= p < plan@.len() ==> #[trigger] plan@[p] < n && mem[plan@[p] as int],
            plan@.no_duplicates(),
            forall|p: int, t: int|
                0 <= p < plan@.len() && 0 <= t < n && mem[t] && #[trigger] edge(cat@, t, plan@[p] as int)
                    ==> plan@.take(p).contains(t as usize),
        decreases n - plan@.len(),
    {
        let mut found: Option<usize> = None;
        let mut any = false;
        let mut j: usize = 0;
        while j < n && found.is_none()
            invariant
                n == cat.len(),
                remaining@.len() == n,
                j <= n,
                found matches Some(f) ==> f < n && remaining@[f as int]
                    && forall|t: int| 0 <= t < n && remaining@[t] ==> !edge(cat@, t, f as int),
                found is None ==> forall|x: int| 0 <= x < j && remaining@[x] ==> exists|t: int|
                    0 <= t < n && remaining@[t] && #[trigger] edge(cat@, t, x),
                any == exists|x: int| 0 <= x < j && remaining@[x],
            decreases n - j,
        {
            if remaining[j] {
                any = true;
                let mut free = true;
                let mut t: usize = 0;
                while t < n && free
                    invariant
                        n == cat.len(),
                        remaining@.len() == n,
                        j < n,
                        t <= n,
                        free ==> forall|u: int| 0 <= u < t && remaining@[u] ==> !edge(cat@, u, j as int),
                        !free ==> exists|u: int| 0 <= u < n && remaining@[u] && #[trigger] edge(cat@, u, j as int),
                    decreases n - t,
                {
                    if remaining[t] && depends_directly(cat, t, j) {
                        free = false;
                    }
                    t = t + 1;
                }
                if free {
                    found = Some(j);
                }
            }
            j = j + 1;
        }
        match found {
            Some(f) => {
                proof {
                    assert(!plan@.contains(f));
                    assert(plan@.push(f).no_duplicates()) by {
                        assert forall|a: int, b: int| 0 <= a < b < plan@.len() + 1
                            implies plan@.push(f)[a] != plan@.push(f)[b] by {
                            if b == plan@.len() {
                                assert(plan@[a] != f);
                            } else {
                                assert(plan@[a] != plan@[b]);
                            }
                        }
                    }
                    lemma_distinct_bounded(plan@.push(f), n as nat);
                }
                let ghost old_plan = plan@;
                let ghost rem_before = remaining@;
                plan.push(f);
                remaining.set(f, false);
                proof {
                    assert forall|t: int| 0 <= t < n && mem[t] implies (remaining@[t] <==> !plan@.contains(t as usize)) by {
                        if t == f as int {
                            assert(plan@[old_plan.len() as int] == f);
                        } else {
                            if old_plan.contains(t as usize) {
                                let x = choose|x: int| 0 <= x < old_plan.len() && old_plan[x] == t as usize;
                                assert(plan@[x] == t as usize);
                            }
                            if plan@.contains(t as usize) {
                                let x = choose|x: int| 0 <= x < plan@.len() && plan@[x] == t as usize;
                                assert(x != old_plan.len());
                                assert(old_plan[x] == t as usize);
                            }
                        }
                    }
                    assert forall|p: int, t: int|
                        0 <= p < plan@.len() && 0 <= t < n && mem[t] && #[trigger] edge(cat@, t, plan@[p] as int)
                            implies plan@.take(p).contains(t as usize) by {
                        if p < old_plan.len() {
                            assert(plan@[p] == old_plan[p]);
                            assert(plan@.take(p) =~= old_plan.take(p));
                        } else {
                            assert(plan@[p] == f);
                            assert(!rem_before[t]);
                            assert(old_plan.contains(t as usize));
                            assert(plan@.take(p) =~= old_plan);
                        }
                    }
                }
            },
            None => {
                if any {
                    proof {
                        let x = choose|x: int| 0 <= x < n && remaining@[x];
                        lemma_never_stuck(cat@, remaining@, x);
                    }
                }
                break;
            },
        }
    }
    let ghost body = plan@;
    plan.push(root);
    proof {
        lemma_uninstall_plan(cat@, root as int, mem, remaining@, body, plan@);
    }
    Ok(plan)
}

proof fn lemma_uninstall_plan(cat: Seq<CatalogEntry>, root: int, mem: Seq<bool>, rem: Seq<bool>, body: Seq<usize>, plan: Seq<usize>)
    requires
        0 <= root < cat.len(),
        mem.len() == cat.len(),
        rem.len() == cat.len(),
        cat.len() <= usize::MAX,
        forall|t: int| 0 <= t < cat.len() ==> #[trigger] mem[t] == depends_on_root(cat, root, t),
        !has_cycle_from(cat, root),
        forall|t: int| 0 <= t < cat.len() ==> !#[trigger] rem[t],
        forall|t: int| 0 <= t < cat.len() && mem[t] ==> (rem[t] <==> !body.contains(t as usize)),
        forall|p: int| 0 <= p < body.len() ==> #[trigger] body[p] < cat.len() && mem[body[p] as int],
        body.no_duplicates(),
        forall|p: int, t: int|
            0 <= p < body.len() && 0 <= t < cat.len() && mem[t] && #[trigger] edge(cat, t, body[p] as int)
                ==> body.take(p).contains(t as usize),
        plan == body.push(root as usize),
    ensures
        is_uninstall_plan(cat, root, plan),
{
    assert forall|p: int| 0 <= p < body.len() implies body[p] as int != root by {
        assert(mem[body[p] as int]);
    }
    assert(plan.no_duplicates()) by {
        assert forall|a: int, b: int| 0 <= a < b < plan.len() implies plan[a] != plan[b] by {
            if b == body.len() {
                assert(plan[a] == body[a] && plan[b] == root as usize);
                assert(body[a] as int != root);
            } else {
                assert(plan[a] == body[a] && plan[b] == body[b]);
                assert(body[a] != body[b]);
            }
        }
    }
    assert forall|p: int| 0 <= p < plan.len() - 1 implies depends_on_root(cat, root, #[trigger] plan[p] as int) by {
        assert(plan[p] == body[p]);
        assert(mem[body[p] as int]);
    }
    assert forall|i: int| depends_on_root(cat, root, i) implies #[trigger] plan.contains(i as usize) by {
        assert(mem[i]);
        assert(!rem[i]);
        let x = choose|x: int| 0 <= x < body.len() && body[x] == i as usize;
        assert(plan[x] == i as usize);
    }
    assert forall|p: int, q: int|
        0 <= p < plan.len() && 0 <= q < plan.len() && #[trigger] edge(cat, plan[p] as int, plan[q] as int) implies p < q by {
        let last = body.len() as int;
        if p == last {
            if q == last {
                let w = seq![root, root];
                assert(is_walk(cat, w));
                assert(has_cycle_from(cat, root));
            } else {
                assert(plan[q] == body[q]);
                assert(mem[body[q] as int]);
                let w = choose|w: Seq<int>| #[trigger] is_walk(cat, w) && w[0] == body[q] as int && w.last() == root;
                assert(plan[p] as int == root);
                assert(plan[q] as int == w[0]);
                let w2 = seq![root] + w;
                assert forall|t: int| 0 <= t < w2.len() - 1 implies edge(cat, #[trigger] w2[t], w2[t + 1]) by {
                    if t > 0 {
                        assert(w2[t] == w[t - 1] && w2[t + 1] == w[t]);
                    }
                }
                assert(is_walk(cat, w2));
                assert(w2[0] == w2[w2.len() - 1]);
                assert(has_cycle_from(cat, root));
            }
        } else if q < last {
            assert(plan[p] == body[p] && plan[q] == body[q]);
            assert(mem[body[p] as int]);
            assert(body.take(q).contains(body[p]));
            let x = choose|x: int| 0 <= x < body.take(q).len() && body.take(q)[x] == body[p];
            assert(body[x] == body[p]);
        }
    }
}

} // verus!
