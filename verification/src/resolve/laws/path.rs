//! How it came that a dependency is missing.
use std::sync::Arc;
use vstd::prelude::*;
use crate::actions::{DepMissingV, MissingV};
use crate::alpm;
use crate::alpm::AlpmPkg;
use crate::depend;
use crate::flags::Flags;
use crate::model::{Env, St};
use crate::pkg::{AurOrPkgbuild, AurPkg, Srcinfo, SrcinfoPkg};
use crate::resolve::aur_tree;
use crate::resolve::choice;
use crate::resolve::laws;
use crate::resolve::split::TargetsV;
use crate::resolve::targets;
use crate::resolve::tree;
use crate::target::TargV;

verus! {

/// The repo package is in a sync database or is a target.
pub open spec fn repo_known<'a>(env: Env<'a>, t: TargetsV<'a>, p: AlpmPkg) -> bool {
    ||| alpm::in_syncdbs(env.m.system, p)
    ||| exists|i: int| 0 <= i < t.repo.len() && *(#[trigger] t.repo[i]).1 == p
}

/// The repo package has the name and the dependency.
pub open spec fn repo_needs(p: AlpmPkg, name: Seq<char>, dep: Seq<char>) -> bool {
    p.name@ == name && exists|i: int|
        0 <= i < p.depends@.len() && (#[trigger] p.depends@[i])@.text == dep
}

/// The dependency is among the needs.
pub open spec fn among<'a>(env: Env<'a>, needs: Seq<Seq<char>>, dep: Seq<char>) -> bool {
    exists|i: int| 0 <= i < needs.len() && (env.m.depend)(#[trigger] needs[i]).text == dep
}

/// The AUR package has the name and the dependency.
pub open spec fn aur_needs<'a>(
    env: Env<'a>,
    p: Arc<AurPkg>,
    name: Seq<char>,
    dep: Seq<char>,
) -> bool {
    p.name@ == name && among(env, env.needs(AurOrPkgbuild::Aur(&*p)), dep)
}

/// The package of the .SRCINFO has the name and the dependency.
pub open spec fn pkgbuild_needs<'a>(
    env: Env<'a>,
    s: &'a Srcinfo,
    p: &'a SrcinfoPkg,
    name: Seq<char>,
    dep: Seq<char>,
) -> bool {
    p.pkgname@ == name && among(env, env.needs(AurOrPkgbuild::Pkgbuild(s, p)), dep)
}

/// A package with the name has the dependency.
pub open spec fn needed_by<'a>(
    env: Env<'a>,
    t: TargetsV<'a>,
    name: Seq<char>,
    dep: Seq<char>,
) -> bool {
    ||| exists|p: AlpmPkg| repo_known(env, t, p) && #[trigger] repo_needs(p, name, dep)
    ||| exists|p: Arc<AurPkg>| env.cache.contains(p) && #[trigger] aur_needs(env, p, name, dep)
    ||| exists|s: &'a Srcinfo, p: &'a SrcinfoPkg|
        choice::in_repos(env.repos, s) && s.pkgs@.contains(*p) && #[trigger] pkgbuild_needs(
            env,
            s,
            p,
            name,
            dep,
        )
}

/// The dependency is a target that was given, as it was given or as libalpm writes it.
pub open spec fn given<'a>(env: Env<'a>, t: TargetsV<'a>, dep: Seq<char>) -> bool {
    ||| exists|i: int| 0 <= i < t.repo.len() && (#[trigger] t.repo[i]).0.pkg == dep
    ||| exists|i: int|
        0 <= i < t.pkgbuild.len() && ((#[trigger] t.pkgbuild[i]).pkg == dep || (env.m.depend)(
            t.pkgbuild[i].pkg,
        ).text == dep)
    ||| exists|i: int|
        0 <= i < t.aur.len() && (#[trigger] t.aur[i] == dep || (env.m.depend)(t.aur[i]).text == dep)
}

/// The first step of the path is for a target that was given, each other step is for a dependency
/// of the package of the step before, and `dep` is a dependency of the package of the last step.
/// Without steps `dep` is a target itself.
pub open spec fn leads<'a>(
    env: Env<'a>,
    t: TargetsV<'a>,
    stack: Seq<DepMissingV>,
    dep: Seq<char>,
) -> bool
    decreases stack.len(),
{
    if stack.len() == 0 {
        given(env, t, dep)
    } else {
        needed_by(env, t, stack.last().pkg, dep) && leads(
            env,
            t,
            stack.drop_last(),
            stack.last().dep,
        )
    }
}

/// What is missing from the position on is reached by the path that is noted with it.
pub open spec fn paths_lead<'a>(
    env: Env<'a>,
    t: TargetsV<'a>,
    missing: Seq<MissingV>,
    from: nat,
) -> bool {
    forall|i: int|
        from <= i < missing.len() ==> leads(env, t, (#[trigger] missing[i]).stack, missing[i].dep)
}

/// The path leads to the package of its last step.
spec fn at<'a>(env: Env<'a>, t: TargetsV<'a>, st: St<'a>, name: Seq<char>) -> bool {
    &&& st.stack.len() > 0
    &&& st.stack.last().pkg == name
    &&& leads(env, t, st.stack.drop_last(), st.stack.last().dep)
}

/// One step further.
proof fn lemma_push<'a>(
    env: Env<'a>,
    t: TargetsV<'a>,
    st: St<'a>,
    name: Seq<char>,
    dep: Seq<char>,
)
    requires
        leads(env, t, st.stack, dep),
    ensures
        at(env, t, st.push(name, dep), name),
        st.push(name, dep).pop() == st,
{
    assert(st.push(name, dep).stack.drop_last() =~= st.stack);
    assert(st.push(name, dep).pop().stack =~= st.stack);
}

/// The package is one that can be built.
spec fn buildable<'a>(env: Env<'a>, who: AurOrPkgbuild<'a>, name: Seq<char>) -> bool {
    match who {
        AurOrPkgbuild::Aur(p) => p.name@ == name && exists|q: Arc<AurPkg>|
            env.cache.contains(q) && *q == *p,
        AurOrPkgbuild::Pkgbuild(s, p) => p.pkgname@ == name && choice::in_repos(env.repos, s)
            && s.pkgs@.contains(*p),
    }
}

/// The path leads to what the package of its last step needs.
proof fn lemma_need<'a>(
    env: Env<'a>,
    t: TargetsV<'a>,
    st: St<'a>,
    who: AurOrPkgbuild<'a>,
    name: Seq<char>,
    i: int,
)
    requires
        at(env, t, st, name),
        buildable(env, who, name),
        0 <= i < env.needs(who).len(),
    ensures
        leads(env, t, st.stack, (env.m.depend)(env.needs(who)[i]).text),
{
    let dep = (env.m.depend)(env.needs(who)[i]).text;
    assert(among(env, env.needs(who), dep));
    match who {
        AurOrPkgbuild::Aur(p) => {
            let q = choose|q: Arc<AurPkg>| env.cache.contains(q) && *q == *p;
            assert(aur_needs(env, q, name, dep));
        },
        AurOrPkgbuild::Pkgbuild(s, p) => {
            assert(pkgbuild_needs(env, s, p, name, dep));
        },
    }
    assert(needed_by(env, t, name, dep));
}

/// Building what a package depends on.
proof fn lemma_pkg_deps<'a>(
    env: Env<'a>,
    t: TargetsV<'a>,
    depth: nat,
    st: St<'a>,
    targs: Seq<Seq<char>>,
    who: AurOrPkgbuild<'a>,
    make: bool,
    name: Seq<char>,
    from: nat,
)
    requires
        alpm::valid(env.m),
        buildable(env, who, name),
        at(env, t, st, name),
        paths_lead(env, t, st.missing, from),
    ensures
        ({
            let r = aur_tree::pkg_deps(env, depth, st, targs, who, make);
            r.stack == st.stack && paths_lead(env, t, r.missing, from)
        }),
    decreases depth, 2nat, 0nat,
{
    assert(env.needs(who).skip(0) =~= env.needs(who));
    lemma_aur_deps(env, t, depth, st, targs, who, make, name, from, 0);
}

/// Building what each of the dependencies needs.
proof fn lemma_aur_deps<'a>(
    env: Env<'a>,
    t: TargetsV<'a>,
    depth: nat,
    st: St<'a>,
    targs: Seq<Seq<char>>,
    who: AurOrPkgbuild<'a>,
    make: bool,
    name: Seq<char>,
    from: nat,
    i: int,
)
    requires
        alpm::valid(env.m),
        buildable(env, who, name),
        at(env, t, st, name),
        paths_lead(env, t, st.missing, from),
        0 <= i <= env.needs(who).len(),
    ensures
        ({
            let r = aur_tree::aur_deps(env, depth, st, targs, env.needs(who).skip(i), env.makes(who, make));
            r.stack == st.stack && paths_lead(env, t, r.missing, from)
        }),
    decreases depth, 1nat, env.needs(who).len() - i,
{
    let needs = env.needs(who).skip(i);
    if needs.len() > 0 {
        let s = aur_tree::aur_dep(env, depth, st, targs, needs[0], env.makes(who, make)(needs[0]));
        lemma_need(env, t, st, who, name, i);
        lemma_aur_dep(env, t, depth, st, targs, needs[0], env.makes(who, make)(needs[0]), from);
        assert(needs.drop_first() =~= env.needs(who).skip(i + 1));
        lemma_aur_deps(env, t, depth, s, targs, who, make, name, from, i + 1);
    }
}

/// Building what one dependency needs.
proof fn lemma_aur_dep<'a>(
    env: Env<'a>,
    t: TargetsV<'a>,
    depth: nat,
    st: St<'a>,
    targs: Seq<Seq<char>>,
    need: Seq<char>,
    make: bool,
    from: nat,
)
    requires
        alpm::valid(env.m),
        leads(env, t, st.stack, (env.m.depend)(need).text),
        paths_lead(env, t, st.missing, from),
    ensures
        ({
            let r = aur_tree::aur_dep(env, depth, st, targs, need, make);
            r.stack == st.stack && paths_lead(env, t, r.missing, from)
        }),
    decreases depth, 0nat, 0nat,
{
    let dep = (env.m.depend)(need);
    let s = st.resolve(dep.text);
    if let Some(p) = env.repo_sat(dep.text) {
        let d = tree::repo_depth(env);
        lemma_push(env, t, s, p.name@, dep.text);
        lemma_repo_pkg(env, t, d, s.push(p.name@, dep.text), &p, false, true, from);
    }
    if depth > 0 {
        let e = (depth - 1) as nat;
        if let Some((repo, srcinfo, pkg)) = env.pkgbuild_dep(None, dep) {
            let who = AurOrPkgbuild::Pkgbuild(srcinfo, pkg);
            let k = aur_tree::lemma_pkgbuild_dep(env, env.repos, None, dep);
            assert(choice::in_repos(env.repos, srcinfo));
            let s2 = s.push(pkg.pkgname@, dep.text);
            lemma_push(env, t, s, pkg.pkgname@, dep.text);
            lemma_pkg_deps(env, t, e, s2, targs, who, true, pkg.pkgname@, from);
        }
        if let Some(p) = env.select_aur(dep, false) {
            let who = AurOrPkgbuild::Aur(&*p);
            aur_tree::lemma_select_aur(env, dep, false);
            let s2 = s.push(p.name@, dep.text);
            lemma_push(env, t, s, p.name@, dep.text);
            lemma_pkg_deps(env, t, e, s2, targs, who, true, p.name@, from);
        }
    }
}

/// Installing a repo package.
proof fn lemma_repo_pkg<'a>(
    env: Env<'a>,
    t: TargetsV<'a>,
    depth: nat,
    st: St<'a>,
    pkg: &'a AlpmPkg,
    target: bool,
    make: bool,
    from: nat,
)
    requires
        alpm::valid(env.m),
        repo_known(env, t, *pkg),
        at(env, t, st, pkg.name@),
        paths_lead(env, t, st.missing, from),
    ensures
        ({
            let r = tree::repo_pkg(env, depth, st, pkg, target, make);
            r.stack == st.stack && paths_lead(env, t, r.missing, from)
        }),
    decreases depth, 2nat, 0nat,
{
    let s = St { seen: st.seen.insert(pkg.name@), ..st };
    let deps = depend::deps(pkg.depends@);
    assert(deps.skip(0) =~= deps);
    lemma_repo_deps(env, t, depth, s, pkg, from, 0);
}

/// Installing what the dependencies of a repo package need.
proof fn lemma_repo_deps<'a>(
    env: Env<'a>,
    t: TargetsV<'a>,
    depth: nat,
    st: St<'a>,
    pkg: &'a AlpmPkg,
    from: nat,
    i: int,
)
    requires
        alpm::valid(env.m),
        repo_known(env, t, *pkg),
        at(env, t, st, pkg.name@),
        paths_lead(env, t, st.missing, from),
        0 <= i <= pkg.depends@.len(),
    ensures
        ({
            let deps = depend::deps(pkg.depends@);
            let r = tree::repo_deps(env, depth, st, deps.skip(i));
            r.stack == st.stack && paths_lead(env, t, r.missing, from)
        }),
    decreases depth, 1nat, pkg.depends@.len() - i,
{
    let all = depend::deps(pkg.depends@);
    let deps = all.skip(i);
    if deps.len() > 0 {
        let dep = deps[0];
        let r = tree::repo_dep(env, depth, st, dep);
        assert(pkg.depends@[i]@ == dep);
        assert(repo_needs(*pkg, pkg.name@, dep.text));
        assert(needed_by(env, t, pkg.name@, dep.text));
        assert(leads(env, t, st.stack, dep.text));
        if let Some(p) = env.repo_sat(dep.text) {
            if depth > 0 {
                let e = (depth - 1) as nat;
                lemma_push(env, t, st, p.name@, dep.text);
                lemma_repo_pkg(env, t, e, st.push(p.name@, dep.text), &p, false, true, from);
            }
        }
        assert(r.stack == st.stack && paths_lead(env, t, r.missing, from));
        assert(deps.drop_first() =~= all.skip(i + 1));
        lemma_repo_deps(env, t, depth, r, pkg, from, i + 1);
    }
}

/// Resolving the targets that come from sync databases.
proof fn lemma_repo_targets<'a>(
    env: Env<'a>,
    t: TargetsV<'a>,
    st: St<'a>,
    make: Seq<Seq<char>>,
    is_target: bool,
    from: nat,
    i: int,
)
    requires
        alpm::valid(env.m),
        st.stack.len() == 0,
        paths_lead(env, t, st.missing, from),
        0 <= i <= t.repo.len(),
    ensures
        ({
            let r = targets::repo_targets(env, st, t.repo.skip(i), make, is_target);
            r.stack == st.stack && paths_lead(env, t, r.missing, from)
        }),
    decreases t.repo.len() - i,
{
    let ts = t.repo.skip(i);
    if ts.len() > 0 {
        let (targ, pkg) = ts[0];
        let s = targets::repo_target(env, st, targ, pkg, make, is_target);
        assert(*t.repo[i].1 == *pkg);
        assert(t.repo[i].0.pkg == targ.pkg);
        assert(given(env, t, targ.pkg));
        lemma_push(env, t, st, pkg.name@, targ.pkg);
        lemma_repo_pkg(
            env,
            t,
            tree::repo_depth(env),
            st.push(pkg.name@, targ.pkg),
            pkg,
            is_target,
            make.contains(targ.pkg),
            from,
        );
        assert(ts.drop_first() =~= t.repo.skip(i + 1));
        lemma_repo_targets(env, t, s, make, is_target, from, i + 1);
    }
}

/// Resolving the targets that come from pkgbuild repos.
proof fn lemma_pkgbuild_targets<'a>(
    env: Env<'a>,
    t: TargetsV<'a>,
    st: St<'a>,
    make: Seq<Seq<char>>,
    is_target: bool,
    targs: Seq<Seq<char>>,
    from: nat,
    i: int,
)
    requires
        alpm::valid(env.m),
        st.stack.len() == 0,
        paths_lead(env, t, st.missing, from),
        0 <= i <= t.pkgbuild.len(),
    ensures
        ({
            let r = targets::pkgbuild_targets(env, st, t.pkgbuild.skip(i), make, is_target, targs);
            r.stack == st.stack && paths_lead(env, t, r.missing, from)
        }),
    decreases t.pkgbuild.len() - i,
{
    let ts = t.pkgbuild.skip(i);
    if ts.len() > 0 {
        let targ = ts[0];
        let dep = (env.m.depend)(targ.pkg);
        assert(t.pkgbuild[i] == targ);
        assert(given(env, t, targ.pkg));
        assert(given(env, t, dep.text));
        let s = targets::pkgbuild_target(env, st, targ, make, is_target, targs);
        if let Some((repo, srcinfo, pkg)) = env.pkgbuild_dep(targ.repo, dep) {
            let who = AurOrPkgbuild::Pkgbuild(srcinfo, pkg);
            let k = aur_tree::lemma_pkgbuild_dep(env, env.repos, targ.repo, dep);
            assert(choice::in_repos(env.repos, srcinfo));
            let s1 = st.push(pkg.pkgname@, targ.pkg);
            lemma_push(env, t, st, pkg.pkgname@, targ.pkg);
            lemma_pkg_deps(env, t, env.depth(), s1, targs, who, make.contains(targ.pkg), pkg.pkgname@, from);
        }
        assert(ts.drop_first() =~= t.pkgbuild.skip(i + 1));
        lemma_pkgbuild_targets(env, t, s, make, is_target, targs, from, i + 1);
    }
}

/// Resolving the targets that come from the AUR.
proof fn lemma_aur_targets<'a>(
    env: Env<'a>,
    t: TargetsV<'a>,
    st: St<'a>,
    make: Seq<Seq<char>>,
    is_target: bool,
    targs: Seq<Seq<char>>,
    from: nat,
    i: int,
)
    requires
        alpm::valid(env.m),
        st.stack.len() == 0,
        paths_lead(env, t, st.missing, from),
        0 <= i <= t.aur.len(),
    ensures
        ({
            let r = targets::aur_targets(env, st, t.aur.skip(i), make, is_target, targs);
            r.stack == st.stack && paths_lead(env, t, r.missing, from)
        }),
    decreases t.aur.len() - i,
{
    let ts = t.aur.skip(i);
    if ts.len() > 0 {
        let targ = ts[0];
        let dep = (env.m.depend)(targ);
        assert(t.aur[i] == targ);
        assert(given(env, t, targ));
        assert(given(env, t, dep.text));
        let s = targets::aur_target(env, st, targ, make, is_target, targs);
        let s0 = St { seen_target: st.seen_target.insert(targ), ..st };
        if let Some(p) = env.select_aur(dep, is_target) {
            aur_tree::lemma_select_aur(env, dep, is_target);
            let who = AurOrPkgbuild::Aur(&*p);
            let s1 = s0.push(p.name@, targ);
            lemma_push(env, t, s0, p.name@, targ);
            lemma_pkg_deps(env, t, env.depth(), s1, targs, who, make.contains(targ), p.name@, from);
        }
        assert(ts.drop_first() =~= t.aur.skip(i + 1));
        lemma_aur_targets(env, t, s, make, is_target, targs, from, i + 1);
    }
}

/// What is missing from the position on is a target.
pub open spec fn no_paths(missing: Seq<MissingV>, from: nat) -> bool {
    forall|i: int| from <= i < missing.len() ==> (#[trigger] missing[i]).stack.len() == 0
}

/// Without dependencies no target from a sync database has a missing dependency.
proof fn lemma_repo_no_paths<'a>(
    env: Env<'a>,
    st: St<'a>,
    ts: Seq<(TargV, &'a AlpmPkg)>,
    make: Seq<Seq<char>>,
    is_target: bool,
    from: nat,
)
    requires
        env.flags.has(Flags::NO_DEPS),
        st.stack.len() == 0,
        no_paths(st.missing, from),
    ensures
        ({
            let r = targets::repo_targets(env, st, ts, make, is_target);
            r.stack.len() == 0 && no_paths(r.missing, from)
        }),
    decreases ts.len(),
{
    if ts.len() > 0 {
        let s = targets::repo_target(env, st, ts[0].0, ts[0].1, make, is_target);
        lemma_repo_no_paths(env, s, ts.drop_first(), make, is_target, from);
    }
}

/// Without dependencies only a target itself can be missing from pkgbuild repos.
proof fn lemma_pkgbuild_no_paths<'a>(
    env: Env<'a>,
    st: St<'a>,
    ts: Seq<TargV>,
    make: Seq<Seq<char>>,
    is_target: bool,
    targs: Seq<Seq<char>>,
    from: nat,
)
    requires
        env.flags.has(Flags::NO_DEPS),
        st.stack.len() == 0,
        no_paths(st.missing, from),
    ensures
        ({
            let r = targets::pkgbuild_targets(env, st, ts, make, is_target, targs);
            r.stack.len() == 0 && no_paths(r.missing, from)
        }),
    decreases ts.len(),
{
    if ts.len() > 0 {
        let s = targets::pkgbuild_target(env, st, ts[0], make, is_target, targs);
        lemma_pkgbuild_no_paths(env, s, ts.drop_first(), make, is_target, targs, from);
    }
}

/// Without dependencies only a target itself can be missing from the AUR.
proof fn lemma_aur_no_paths<'a>(
    env: Env<'a>,
    st: St<'a>,
    ts: Seq<Seq<char>>,
    make: Seq<Seq<char>>,
    is_target: bool,
    targs: Seq<Seq<char>>,
    from: nat,
)
    requires
        env.flags.has(Flags::NO_DEPS),
        st.stack.len() == 0,
        no_paths(st.missing, from),
    ensures
        ({
            let r = targets::aur_targets(env, st, ts, make, is_target, targs);
            r.stack.len() == 0 && no_paths(r.missing, from)
        }),
    decreases ts.len(),
{
    if ts.len() > 0 {
        let s = targets::aur_target(env, st, ts[0], make, is_target, targs);
        lemma_aur_no_paths(env, s, ts.drop_first(), make, is_target, targs, from);
    }
}

/// What is found to be missing is noted with the path that leads to it: the first step is for a
/// target, the package of each step has the dependency that the next step is for, and that of the
/// last step has the missing one. Without a path a target itself is missing, and that is all that
/// can be where dependencies are switched off.
pub proof fn law_path<'a>(
    env: Env<'a>,
    st: St<'a>,
    t: TargetsV<'a>,
    make_deps: Seq<TargV>,
    is_target: bool,
)
    requires
        alpm::valid(env.m),
        laws::fresh(st),
    ensures
        ({
            let r = targets::outcome(env, st, t, make_deps, is_target);
            &&& paths_lead(env, t, r.missing, st.missing.len())
            &&& env.flags.has(Flags::NO_DEPS) ==> no_paths(r.missing, st.missing.len())
        }),
{
    let make = targets::pkg_parts(make_deps);
    let s0 = St { resolved: Set::empty(), ..st };
    let from = st.missing.len();
    let s1 = targets::repo_targets(env, s0, t.repo, make, is_target);
    let s2 = targets::pkgbuild_targets(env, s1, t.pkgbuild, make, is_target, t.aur);
    assert(t.repo.skip(0) =~= t.repo);
    assert(t.pkgbuild.skip(0) =~= t.pkgbuild);
    assert(t.aur.skip(0) =~= t.aur);
    lemma_repo_targets(env, t, s0, make, is_target, from, 0);
    lemma_pkgbuild_targets(env, t, s1, make, is_target, t.aur, from, 0);
    lemma_aur_targets(env, t, s2, make, is_target, t.aur, from, 0);
    if env.flags.has(Flags::NO_DEPS) {
        lemma_repo_no_paths(env, s0, t.repo, make, is_target, from);
        lemma_pkgbuild_no_paths(env, s1, t.pkgbuild, make, is_target, t.aur, from);
        lemma_aur_no_paths(env, s2, t.aur, make, is_target, t.aur, from);
    }
}

} // verus!
