//! How deep packages of pkgbuild repos can depend on one another.
use std::sync::Arc;
use vstd::prelude::*;
use crate::alpm;
use crate::alpm::{Alpm, AlpmPkg};
use crate::cb::Group;
use crate::model::Env;
use crate::pkg::{AurOrPkgbuild, AurPkg, PkgbuildRepo, Srcinfo, SrcinfoPkg};
use crate::resolve::aur_tree;
use crate::resolve::fetch;
use crate::resolve::fetch::NextV;
use crate::resolve::Resolver;
use crate::seqs;
use crate::target::TargV;

verus! {

/// A package of a pkgbuild repo.
pub type Node<'a> = (&'a Srcinfo, &'a SrcinfoPkg);

/// The packages of a .SRCINFO.
pub open spec fn srcinfo_nodes<'a>() -> spec_fn(&'a Srcinfo) -> Seq<Node<'a>> {
    |s: &'a Srcinfo| Seq::new(s.pkgs@.len(), |i: int| (s, &s.pkgs@[i]))
}

/// The packages of a pkgbuild repo.
pub open spec fn repo_nodes<'a>() -> spec_fn(PkgbuildRepo<'a>) -> Seq<Node<'a>> {
    |r: PkgbuildRepo<'a>| seqs::flat(r.pkgs@, srcinfo_nodes())
}

/// The packages of all the pkgbuild repos.
pub open spec fn nodes<'a>(repos: Seq<PkgbuildRepo<'a>>) -> Seq<Node<'a>> {
    seqs::flat(repos, repo_nodes())
}

/// The second package is picked for a dependency of the first.
pub open spec fn leads_to<'a>(env: Env<'a>, a: Node<'a>, b: Node<'a>) -> bool {
    let needs = env.needs(AurOrPkgbuild::Pkgbuild(a.0, a.1));
    exists|i: int|
        0 <= i < needs.len() && (env.pkgbuild_dep(None, (env.m.depend)(#[trigger] needs[i])) matches
            Some(f) && (f.1, f.2) == b)
}

/// The package at the place leads to the next one.
pub open spec fn leads_on<'a>(env: Env<'a>, w: Seq<Node<'a>>, i: int) -> bool {
    leads_to(env, w[i], w[i + 1])
}

/// Each of the packages leads to the next one.
pub open spec fn path<'a>(env: Env<'a>, w: Seq<Node<'a>>) -> bool {
    forall|i: int| 0 <= i < w.len() - 1 ==> #[trigger] leads_on(env, w, i)
}

/// A package of a pkgbuild repo needs itself in the end.
pub open spec fn has_circle<'a>(env: Env<'a>) -> bool {
    exists|w: Seq<Node<'a>>| #[trigger] path(env, w) && w.len() > 1 && w[0] == w.last()
}

/// Each package of the path is in one of the repos.
spec fn in_nodes<'a>(env: Env<'a>, w: Seq<Node<'a>>) -> bool {
    forall|i: int| 0 <= i < w.len() ==> nodes(env.repos).contains(#[trigger] w[i])
}

/// A path with a package put before it.
proof fn lemma_longer<'a>(env: Env<'a>, a: Node<'a>, w: Seq<Node<'a>>)
    requires
        w.len() > 0,
        path(env, w),
        in_nodes(env, w),
        leads_to(env, a, w[0]),
        nodes(env.repos).contains(a),
    ensures
        path(env, seq![a] + w),
        in_nodes(env, seq![a] + w),
{
    let v = seq![a] + w;
    assert forall|i: int| 0 <= i < v.len() - 1 implies #[trigger] leads_on(env, v, i) by {
        if i > 0 {
            assert(leads_on(env, w, i - 1));
        }
    }
    assert forall|i: int| 0 <= i < v.len() implies nodes(env.repos).contains(#[trigger] v[i]) by {
        if i > 0 {
            assert(v[i] == w[i - 1]);
        }
    }
}

/// The package that is picked is in one of the repos.
proof fn lemma_picked<'a>(env: Env<'a>, repo: Option<Seq<char>>, need: Seq<char>)
    ensures
        env.pkgbuild_dep(repo, (env.m.depend)(need)) matches Some(f) ==> nodes(env.repos).contains(
            (f.1, f.2),
        ),
{
    if let Some(f) = env.pkgbuild_dep(repo, (env.m.depend)(need)) {
        let r = aur_tree::lemma_pkgbuild_dep(env, env.repos, repo, (env.m.depend)(need));
        let pkgs = env.repos[r].pkgs@;
        let k = choose|k: int| 0 <= k < pkgs.len() && pkgs[k] == f.1;
        let i = choose|i: int| 0 <= i < f.1.pkgs@.len() && f.1.pkgs@[i] == *f.2;
        assert(srcinfo_nodes()(pkgs[k])[i] == (f.1, f.2));
        seqs::lemma_flat(pkgs, srcinfo_nodes(), k, (f.1, f.2));
        seqs::lemma_flat(env.repos, repo_nodes(), r, (f.1, f.2));
    }
}

/// Where dependencies go too deep there is a path that goes one step deeper than is allowed.
proof fn lemma_too_deep<'a>(
    env: Env<'a>,
    depth: nat,
    resolved: Set<Seq<char>>,
    targ: TargV,
) -> (w: Seq<Node<'a>>)
    requires
        alpm::reads_back(env.m.depend),
        env.pkgbuild_needs(depth, resolved, targ) is None,
    ensures
        w.len() == depth + 2,
        path(env, w),
        in_nodes(env, w),
        env.pkgbuild_dep(targ.repo, (env.m.depend)(targ.pkg)) matches Some(f) && w[0] == (f.1, f.2),
    decreases depth, 1nat, 0nat,
{
    let (_, s, p) = env.pkgbuild_dep(targ.repo, (env.m.depend)(targ.pkg))->0;
    let needs = env.needs(AurOrPkgbuild::Pkgbuild(s, p));
    let q = env.wants_pkgbuild(resolved);
    let wanted = needs.filter(q);
    let nested = aur_tree::dep_texts(env.m, wanted);
    lemma_picked(env, targ.repo, targ.pkg);
    assert forall|i: int| 0 <= i < nested.len() implies leads_by(env, (s, p), #[trigger] nested[i]) by {
        let need = wanted[i];
        assert(nested[i] == (env.m.depend)(need).text);
        assert((env.m.depend)(nested[i]) == (env.m.depend)(need));
        seqs::lemma_filter_contains(needs, q, need);
        assert(wanted.contains(need));
        let k = choose|k: int| 0 <= k < needs.len() && needs[k] == need;
        assert(env.in_pkgbuilds()(needs[k]));
    }
    lemma_nested_too_deep(env, depth, resolved, nested, (s, p))
}

/// The package leads to the one that is picked for the dependency.
spec fn leads_by<'a>(env: Env<'a>, a: Node<'a>, dep: Seq<char>) -> bool {
    env.pkgbuild_dep(None, (env.m.depend)(dep)) matches Some(f) && leads_to(env, a, (f.1, f.2))
}

/// The same from a package on, given what it needs.
proof fn lemma_nested_too_deep<'a>(
    env: Env<'a>,
    depth: nat,
    resolved: Set<Seq<char>>,
    deps: Seq<Seq<char>>,
    from: Node<'a>,
) -> (w: Seq<Node<'a>>)
    requires
        alpm::reads_back(env.m.depend),
        env.nested_needs(depth, resolved, deps) is None,
        nodes(env.repos).contains(from),
        forall|i: int| 0 <= i < deps.len() ==> leads_by(env, from, #[trigger] deps[i]),
    ensures
        w.len() == depth + 2,
        path(env, w),
        in_nodes(env, w),
        w[0] == from,
    decreases depth, 0nat, deps.len(),
{
    let targ = TargV { repo: None, pkg: deps[0] };
    assert(leads_by(env, from, deps[0]));
    if depth == 0 {
        let f = env.pkgbuild_dep(None, (env.m.depend)(deps[0]))->0;
        let v = seq![(f.1, f.2)];
        lemma_picked(env, None, deps[0]);
        lemma_longer(env, from, v);
        seq![from] + v
    } else {
        let e = (depth - 1) as nat;
        match env.pkgbuild_needs(e, resolved, targ) {
            None => {
                let v = lemma_too_deep(env, e, resolved, targ);
                lemma_longer(env, from, v);
                seq![from] + v
            },
            Some((after, head)) => {
                let rest = deps.drop_first();
                assert forall|i: int| 0 <= i < rest.len() implies leads_by(
                    env,
                    from,
                    #[trigger] rest[i],
                ) by {
                    assert(rest[i] == deps[i + 1]);
                }
                lemma_nested_too_deep(env, depth, after, rest, from)
            },
        }
    }
}

/// A path with more packages than there are comes back to one of them.
proof fn lemma_circle<'a>(env: Env<'a>, w: Seq<Node<'a>>)
    requires
        path(env, w),
        in_nodes(env, w),
        w.len() > nodes(env.repos).len(),
    ensures
        has_circle(env),
{
    broadcast use vstd::seq_lib::seq_to_set_is_finite;

    let all = nodes(env.repos);
    if w.no_duplicates() {
        w.unique_seq_to_set();
        all.lemma_cardinality_of_set();
        assert forall|x: Node<'a>| #[trigger] w.to_set().contains(x) implies all.to_set().contains(
            x,
        ) by {
            let i = choose|i: int| 0 <= i < w.len() && w[i] == x;
            assert(all.contains(w[i]));
        }
        vstd::set_lib::lemma_len_subset(w.to_set(), all.to_set());
    }
    let (i, j) = choose|i: int, j: int|
        0 <= i < w.len() && 0 <= j < w.len() && i != j && w[i] == w[j];
    let (i, j) = if i < j {
        (i, j)
    } else {
        (j, i)
    };
    let v = w.subrange(i, j + 1);
    assert forall|k: int| 0 <= k < v.len() - 1 implies #[trigger] leads_on(env, v, k) by {
        assert(leads_on(env, w, i + k));
    }
    assert(path(env, v));
}

/// Dependencies among pkgbuilds are too deep only where they go in a circle, if as many steps are
/// allowed as there are packages.
pub proof fn law_circle<'a>(env: Env<'a>, depth: nat, resolved: Set<Seq<char>>, targ: TargV)
    requires
        alpm::reads_back(env.m.depend),
        depth >= nodes(env.repos).len(),
        env.pkgbuild_needs(depth, resolved, targ) is None,
    ensures
        has_circle(env),
{
    let w = lemma_too_deep(env, depth, resolved, targ);
    lemma_circle(env, w);
}

/// The same of all that is to be looked up.
proof fn lemma_round<'a>(
    env: Env<'a>,
    depth: nat,
    resolved: Set<Seq<char>>,
    targs: Seq<TargV>,
)
    requires
        alpm::reads_back(env.m.depend),
        depth >= nodes(env.repos).len(),
        env.targets_needs(depth, resolved, targs) is None,
    ensures
        has_circle(env),
    decreases targs.len(),
{
    match env.pkgbuild_needs(depth, resolved, targs[0]) {
        None => {
            law_circle(env, depth, resolved, targs[0]);
        },
        Some((after, head)) => {
            lemma_round(env, depth, after, targs.drop_first());
        },
    }
}

/// A lookup ends with packages depending on one another too deeply only where they do so in a
/// circle, if as many steps are allowed as there are packages: when it starts, and when answers
/// come in.
pub proof fn law_too_deep<'a>(
    env: Env<'a>,
    depth: nat,
    resolved: Set<Seq<char>>,
    pkgs: Seq<Seq<char>>,
    pkgbuilds: Seq<TargV>,
    info: Seq<Arc<AurPkg>>,
    target: bool,
)
    requires
        alpm::reads_back(env.m.depend),
        depth >= nodes(env.repos).len(),
        !has_circle(env),
    ensures
        env.round(depth, resolved, pkgs, pkgbuilds, target).1 != NextV::TooDeep,
        env.after_info(depth, resolved, pkgs, info).1 != NextV::TooDeep,
        env.follow(depth, resolved, info).1 != NextV::TooDeep,
{
    if env.targets_needs(depth, resolved, pkgbuilds) is None {
        lemma_round(env, depth, resolved, pkgbuilds);
    }
    let (r, new) = env.fresh(resolved, seqs::flat(info, env.aur_needs()));
    let nested = fetch::any_repo(new.filter(env.in_pkgbuilds()));
    if env.targets_needs(depth, r, nested) is None {
        lemma_round(env, depth, r, nested);
    }
}

/// The sum of two counts, the greatest count there is where it is greater.
fn sum(a: usize, b: usize) -> (r: usize)
    ensures
        r == (if a + b <= usize::MAX {
            a + b
        } else {
            usize::MAX as int
        }),
{
    if b <= usize::MAX - a {
        a + b
    } else {
        usize::MAX
    }
}

impl<
    'a,
    A: Alpm,
    P: Fn(&str, &[String]) -> usize,
    G: Fn(&[Group<'a>]) -> Vec<&'a AlpmPkg>,
    D: Fn(&str) -> bool,
> Resolver<'a, A, P, G, D> {
    /// A depth that is enough for looking up what packages of pkgbuild repos need, unless they
    /// depend on one another in a circle: the number of packages in the repos.
    pub fn pkgbuild_depth(&self) -> (r: usize)
        ensures
            r == (if nodes(self.env().repos).len() <= usize::MAX {
                nodes(self.env().repos).len() as int
            } else {
                usize::MAX as int
            }),
    {
        let ghost repos = self.repos@;
        let mut r: usize = 0;
        let mut i: usize = 0;
        proof {
            assert(repos.take(0) =~= Seq::empty());
        }
        while i < self.repos.len()
            invariant
                repos == self.repos@,
                i <= repos.len(),
                r == (if nodes(repos.take(i as int)).len() <= usize::MAX {
                    nodes(repos.take(i as int)).len() as int
                } else {
                    usize::MAX as int
                }),
            decreases repos.len() - i,
        {
            let repo = &self.repos[i];
            let ghost pkgs = repo.pkgs@;
            let mut n: usize = 0;
            let mut k: usize = 0;
            proof {
                assert(pkgs.take(0) =~= Seq::empty());
            }
            while k < repo.pkgs.len()
                invariant
                    pkgs == repo.pkgs@,
                    k <= pkgs.len(),
                    n == (if seqs::flat(pkgs.take(k as int), srcinfo_nodes()).len() <= usize::MAX {
                        seqs::flat(pkgs.take(k as int), srcinfo_nodes()).len() as int
                    } else {
                        usize::MAX as int
                    }),
                decreases pkgs.len() - k,
            {
                proof {
                    assert(pkgs.take(k + 1) =~= pkgs.take(k as int).push(pkgs[k as int]));
                    seqs::lemma_flat_push(pkgs.take(k as int), srcinfo_nodes(), pkgs[k as int]);
                }
                n = sum(n, repo.pkgs[k].pkgs.len());
                k = k + 1;
            }
            proof {
                assert(pkgs.take(k as int) =~= pkgs);
                assert(repos.take(i + 1) =~= repos.take(i as int).push(repos[i as int]));
                seqs::lemma_flat_push(repos.take(i as int), repo_nodes(), repos[i as int]);
            }
            r = sum(r, n);
            i = i + 1;
        }
        proof {
            assert(repos.take(i as int) =~= repos);
        }
        r
    }
}

} // verus!
