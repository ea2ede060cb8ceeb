//! What one dependency changes.
use std::sync::Arc;
use vstd::prelude::*;
use crate::actions::DepMissingV;
use crate::alpm::AlpmPkg;
use crate::base::{BaseV, Package};
use crate::depend;
use crate::depend::DependV;
use crate::flags::Flags;
use crate::model::laws as found;
use crate::model::{Env, St};
use crate::pkg::{AurOrPkgbuild, AurPkg, Srcinfo, SrcinfoPkg};
use crate::resolve::aur_tree;
use crate::resolve::targets;
use crate::resolve::tree;
use crate::satisfies;
use crate::satisfies::Satisfies;
use crate::target::TargV;

verus! {

/// What is found for the dependency in the AUR is what a target asks for that has not been dealt with.
pub open spec fn awaited<'a>(
    env: Env<'a>,
    seen: Set<Seq<char>>,
    targs: Seq<Seq<char>>,
    dep: DependV,
) -> bool {
    match env.find_aur(dep) {
        Some(p) => exists|i: int|
            0 <= i < targs.len() && !seen.contains(#[trigger] targs[i]) && p.which(
                env.m,
                (env.m.depend)(targs[i]),
                env.flags.has(Flags::NO_DEP_VERSION),
            ) is Some,
        None => false,
    }
}

/// A dependency is one on a target where a target asks for what is found for it and has not been dealt
/// with.
pub proof fn law_awaited<'a>(
    env: Env<'a>,
    seen: Set<Seq<char>>,
    targs: Seq<Seq<char>>,
    dep: DependV,
)
    ensures
        env.is_aur_targ(seen, targs, dep) <==> awaited(env, seen, targs, dep),
{
    if let Some(p) = env.find_aur(dep) {
        assert forall|i: int| 0 <= i < targs.len() implies (p.which(
            env.m,
            (env.m.depend)(#[trigger] targs[i]),
            env.flags.has(Flags::NO_DEP_VERSION),
        ) is Some) == satisfies::aur_ok(
            env.m,
            *p,
            (env.m.depend)(targs[i]),
            env.nover(),
        ) by {
        }
    }
}

/// The dependency is met already: it is to be taken as installed, what is to be installed or built
/// meets it, it has been dealt with, or what is installed meets it and that counts.
pub open spec fn met_already<'a>(
    env: Env<'a>,
    st: St<'a>,
    targs: Seq<Seq<char>>,
    dep: DependV,
) -> bool {
    ||| env.assumed(dep)
    ||| st.resolved.contains(dep.text)
    ||| exists|i: int|
        0 <= i < st.install.len() && (#[trigger] st.install[i]).pkg.which(
            env.m,
            dep,
            env.flags.has(Flags::NO_DEP_VERSION),
        ) is Some
    ||| exists|b: int| 0 <= b < st.build.len() && found::base_meets(env, #[trigger] st.build[b], dep)
    ||| env.sat_local(dep) && !awaited(env, st.seen_target, targs, dep) && (!env.flags.has(
        Flags::RESOLVE_SATISFIED_PKGBUILDS,
    ) || env.repo_sat(dep.text) is Some)
}

/// A dependency of a package that is built and that is met already changes nothing of what is to be
/// installed and built and what is missing. One that is not is noted as dealt with.
pub proof fn law_met_already<'a>(
    env: Env<'a>,
    depth: nat,
    st: St<'a>,
    targs: Seq<Seq<char>>,
    need: Seq<char>,
    make: bool,
)
    ensures
        ({
            let r = aur_tree::aur_dep(env, depth, st, targs, need, make);
            let dep = (env.m.depend)(need);
            met_already(env, st, targs, dep) ==> r.install == st.install && r.build == st.build
                && r.missing == st.missing && r.unneeded == st.unneeded && r.stack == st.stack
        }),
{
    let dep = (env.m.depend)(need);
    law_awaited(env, st.seen_target, targs, dep);
    found::law_sat_build(env, st.build, dep);
    found::law_sat_install(env, st.install, dep);
}

/// A dependency on an AUR target that has not been dealt with is built, whatever is installed and
/// whatever the sync databases have. A package of a pkgbuild repo goes before one of the AUR.
pub proof fn law_target_first<'a>(
    env: Env<'a>,
    depth: nat,
    st: St<'a>,
    targs: Seq<Seq<char>>,
    need: Seq<char>,
    make: bool,
)
    requires
        depth > 0,
        awaited(env, st.seen_target, targs, (env.m.depend)(need)),
        !met_already(env, st, targs, (env.m.depend)(need)),
    ensures
        ({
            let r = aur_tree::aur_dep(env, depth, st, targs, need, make);
            let dep = (env.m.depend)(need);
            &&& env.pkgbuild_dep(None, dep) matches Some(f) ==> (env.needs(
                AurOrPkgbuild::Pkgbuild(f.1, f.2),
            ).len() == 0 ==> r.install == st.install && r.missing == st.missing && (r.build.last()
                matches BaseV::Pkgbuild { pkgs, .. } && pkgs.last().pkg == f.2 && pkgs.last().make
                == make && !pkgs.last().target))
            &&& env.pkgbuild_dep(None, dep) is None ==> (env.select_aur(dep, false) matches Some(
                p,
            ) ==> (env.needs(AurOrPkgbuild::Aur(&*p)).len() == 0 ==> r.install == st.install
                && r.missing == st.missing && (r.build.last() matches BaseV::Aur { pkgs, .. }
                && pkgs.last().pkg == p && pkgs.last().make == make && !pkgs.last().target)))
        }),
{
    let dep = (env.m.depend)(need);
    law_awaited(env, st.seen_target, targs, dep);
    found::law_sat_build(env, st.build, dep);
    found::law_sat_install(env, st.install, dep);
}

/// A target from the AUR has been dealt with once its turn has come, and nothing else has.
pub proof fn law_seen_target<'a>(
    env: Env<'a>,
    st: St<'a>,
    targ: Seq<char>,
    make: Seq<Seq<char>>,
    is_target: bool,
    targs: Seq<Seq<char>>,
)
    ensures
        targets::aur_target(env, st, targ, make, is_target, targs).seen_target
            == st.seen_target.insert(targ),
{
    let dep = (env.m.depend)(targ);
    if let Some(p) = env.select_aur(dep, is_target) {
        let s = St { seen_target: st.seen_target.insert(targ), ..st }.push(p.name@, targ);
        lemma_pkg_deps(
            env,
            env.depth(),
            s,
            targs,
            AurOrPkgbuild::Aur(&*p),
            make.contains(targ),
        );
    }
}

/// Building what a package depends on deals with no target.
proof fn lemma_pkg_deps<'a>(
    env: Env<'a>,
    depth: nat,
    st: St<'a>,
    targs: Seq<Seq<char>>,
    who: AurOrPkgbuild<'_>,
    make: bool,
)
    ensures
        aur_tree::pkg_deps(env, depth, st, targs, who, make).seen_target == st.seen_target,
    decreases depth, 2nat, 0nat,
{
    if !env.flags.has(Flags::NO_DEPS) {
        lemma_aur_deps(env, depth, st, targs, env.needs(who), env.makes(who, make));
    }
}

/// Building what each of the dependencies needs deals with no target.
proof fn lemma_aur_deps<'a>(
    env: Env<'a>,
    depth: nat,
    st: St<'a>,
    targs: Seq<Seq<char>>,
    needs: Seq<Seq<char>>,
    make: spec_fn(Seq<char>) -> bool,
)
    ensures
        aur_tree::aur_deps(env, depth, st, targs, needs, make).seen_target == st.seen_target,
    decreases depth, 1nat, needs.len(),
{
    if needs.len() > 0 {
        let s = aur_tree::aur_dep(env, depth, st, targs, needs[0], make(needs[0]));
        lemma_aur_dep(env, depth, st, targs, needs[0], make(needs[0]));
        lemma_aur_deps(env, depth, s, targs, needs.drop_first(), make);
    }
}

/// Building what one dependency needs deals with no target.
proof fn lemma_aur_dep<'a>(
    env: Env<'a>,
    depth: nat,
    st: St<'a>,
    targs: Seq<Seq<char>>,
    need: Seq<char>,
    make: bool,
)
    ensures
        aur_tree::aur_dep(env, depth, st, targs, need, make).seen_target == st.seen_target,
    decreases depth, 0nat, 0nat,
{
    let dep = (env.m.depend)(need);
    let s = st.resolve(dep.text);
    if let Some(p) = env.repo_sat(dep.text) {
        lemma_repo_pkg(env, tree::repo_depth(env), s.push(p.name@, dep.text), &p, false, true);
    }
    if depth > 0 {
        let e = (depth - 1) as nat;
        if let Some(f) = env.pkgbuild_dep(None, dep) {
            let who = AurOrPkgbuild::Pkgbuild(f.1, f.2);
            lemma_pkg_deps(env, e, s.push(f.2.pkgname@, dep.text), targs, who, true);
        }
        if let Some(p) = env.select_aur(dep, false) {
            let who = AurOrPkgbuild::Aur(&*p);
            lemma_pkg_deps(env, e, s.push(p.name@, dep.text), targs, who, true);
        }
    }
}

/// Installing a repo package deals with no AUR target.
proof fn lemma_repo_pkg<'a>(
    env: Env<'a>,
    depth: nat,
    st: St<'a>,
    pkg: &'a AlpmPkg,
    target: bool,
    make: bool,
)
    ensures
        tree::repo_pkg(env, depth, st, pkg, target, make).seen_target == st.seen_target,
    decreases depth, 2nat, 0nat,
{
    let s = St { seen: st.seen.insert(pkg.name@), ..st };
    lemma_repo_deps(env, depth, s, depend::deps(pkg.depends@));
}

/// Installing what the dependencies of a repo package need deals with no AUR target.
proof fn lemma_repo_deps<'a>(env: Env<'a>, depth: nat, st: St<'a>, deps: Seq<DependV>)
    ensures
        tree::repo_deps(env, depth, st, deps).seen_target == st.seen_target,
    decreases depth, 1nat, deps.len(),
{
    if deps.len() > 0 {
        let dep = deps[0];
        if let Some(p) = env.repo_sat(dep.text) {
            if depth > 0 {
                let e = (depth - 1) as nat;
                lemma_repo_pkg(env, e, st.push(p.name@, dep.text), &p, false, true);
            }
        }
        lemma_repo_deps(env, depth, tree::repo_dep(env, depth, st, dep), deps.drop_first());
    }
}

/// A dependency of a sync package is left alone where, and only where, something installed, to be
/// taken as installed or to be installed meets it. Otherwise the package that libalpm picks is
/// installed for it, or it is missing.
pub proof fn law_repo_dep<'a>(env: Env<'a>, depth: nat, st: St<'a>, dep: DependV)
    requires
        depth > 0,
    ensures
        ({
            let r = tree::repo_dep(env, depth, st, dep);
            let met = env.assumed(dep) || env.sat_local(dep) || exists|i: int|
                0 <= i < st.install.len() && (#[trigger] st.install[i]).pkg.which(
                    env.m,
                    dep,
                    env.flags.has(Flags::NO_DEP_VERSION),
                ) is Some;
            &&& met ==> r == st
            &&& !met && env.repo_sat(dep.text) is None ==> r.missing.len() == st.missing.len() + 1
                && r.missing.last().dep == dep.text && r.missing.last().stack == st.stack
            &&& !met ==> (env.repo_sat(dep.text) matches Some(p) ==> r.seen.contains(p.name@) && (
            !st.seen.contains(p.name@) ==> r.install.len() > 0 && *r.install.last().pkg == p
                && r.install.last().make && !r.install.last().target))
        }),
{
    found::law_sat_install(env, st.install, dep);
    if let Some(p) = env.repo_sat(dep.text) {
        let s = st.push(p.name@, dep.text);
        let e = (depth - 1) as nat;
        if !s.seen.contains(p.name@) {
            let t = St { seen: s.seen.insert(p.name@), ..s };
            lemma_seen(env, e, t, depend::deps(p.depends@), p.name@);
        }
    }
}

/// A package that has been dealt with stays so.
proof fn lemma_seen<'a>(env: Env<'a>, depth: nat, st: St<'a>, deps: Seq<DependV>, name: Seq<char>)
    requires
        st.seen.contains(name),
    ensures
        tree::repo_deps(env, depth, st, deps).seen.contains(name),
    decreases depth, 1nat, deps.len(),
{
    if deps.len() > 0 {
        let dep = deps[0];
        let r = tree::repo_dep(env, depth, st, dep);
        if let Some(p) = env.repo_sat(dep.text) {
            if depth > 0 {
                let e = (depth - 1) as nat;
                let s = st.push(p.name@, dep.text);
                if !s.seen.contains(p.name@) {
                    let t = St { seen: s.seen.insert(p.name@), ..s };
                    lemma_seen(env, e, t, depend::deps(p.depends@), name);
                }
            }
        }
        lemma_seen(env, depth, r, deps.drop_first(), name);
    }
}

/// A target is asked for as a make dependency where one of those names its package.
pub proof fn law_make_deps(make_deps: Seq<TargV>, name: Seq<char>)
    ensures
        targets::pkg_parts(make_deps).contains(name) <==> exists|i: int|
            0 <= i < make_deps.len() && (#[trigger] make_deps[i]).pkg == name,
{
    let v = targets::pkg_parts(make_deps);
    if v.contains(name) {
        let i = choose|i: int| 0 <= i < v.len() && v[i] == name;
        assert(make_deps[i].pkg == name);
    }
    if exists|i: int| 0 <= i < make_deps.len() && (#[trigger] make_deps[i]).pkg == name {
        let i = choose|i: int| 0 <= i < make_deps.len() && (#[trigger] make_deps[i]).pkg == name;
        assert(v[i] == name);
    }
}

/// Which dependencies of a package are make only so far: all of them where the package is, else those
/// that its fields list for building and not for running.
pub proof fn law_makes<'a>(
    env: Env<'a>,
    p: &AurPkg,
    s: &Srcinfo,
    q: &SrcinfoPkg,
    arch: Seq<char>,
    x: Seq<char>,
)
    requires
        found::is_arch(env, arch),
    ensures
        env.makes(AurOrPkgbuild::Aur(p), true)(x),
        env.makes(AurOrPkgbuild::Pkgbuild(s, q), true)(x),
        env.makes(AurOrPkgbuild::Aur(p), false)(x) <==> !found::listed(p.depends@, x),
        env.makes(AurOrPkgbuild::Pkgbuild(s, q), false)(x) <==> !found::listed_for(
            q.depends@,
            Some(arch),
            x,
        ),
{
    found::law_needs(env, p, s, q, arch, x);
}

/// An AUR package of the base is the one, and is noted as make only or not as told.
pub open spec fn builds_aur<'a>(build: Seq<BaseV<'a>>, p: Arc<AurPkg>, make: bool) -> bool {
    exists|b: int, k: int| #[trigger] is_aur_at(build, b, k, p, make)
}

/// The package at the place is the one, and is noted as make only or not as told.
pub open spec fn is_aur_at<'a>(
    build: Seq<BaseV<'a>>,
    b: int,
    k: int,
    p: Arc<AurPkg>,
    make: bool,
) -> bool {
    0 <= b < build.len() && match build[b] {
        BaseV::Aur { pkgs, .. } => 0 <= k < pkgs.len() && pkgs[k].pkg == p && pkgs[k].make == make,
        BaseV::Pkgbuild { .. } => false,
    }
}

/// What a target from the AUR needs is not make only for being needed by it alone: of a target that is
/// not asked for as a make dependency, the package that is built for its one dependency is make only
/// where the target does not need that to run. Of a target that is, it is make only.
pub proof fn law_target_runs<'a>(
    env: Env<'a>,
    st: St<'a>,
    targ: Seq<char>,
    make: Seq<Seq<char>>,
    is_target: bool,
    targs: Seq<Seq<char>>,
    p: Arc<AurPkg>,
    q: Arc<AurPkg>,
    need: Seq<char>,
)
    requires
        !env.flags.has(Flags::NO_DEPS),
        env.select_aur((env.m.depend)(targ), is_target) == Some(p),
        env.needs(AurOrPkgbuild::Aur(&*p)) == seq![need],
        env.needs(AurOrPkgbuild::Aur(&*q)).len() == 0,
        env.depth() > 0,
        !env.skip_aur((env.m.depend)(targ), is_target),
        env.unneeded(targ, p.name@, p.version@, is_target) is None,
        ({
            let dep = (env.m.depend)(need);
            &&& env.select_aur(dep, false) == Some(q)
            &&& env.pkgbuild_dep(None, dep) is None
            &&& env.repo_sat(dep.text) is None
            &&& !env.sat_local(dep)
            &&& !met_already(env, st, targs, dep)
        }),
        p.name@ != q.name@,
        !targets::builds(st.build, p.name@),
    ensures
        builds_aur(
            targets::aur_target(env, st, targ, make, is_target, targs).build,
            q,
            make.contains(targ) || !found::listed(p.depends@, need),
        ),
{
    let dep = (env.m.depend)(need);
    let who = AurOrPkgbuild::Aur(&*p);
    let is_make = make.contains(targ);
    let s0 = St { seen_target: st.seen_target.insert(targ), ..st };
    let s1 = s0.push(p.name@, targ);
    let flag = is_make || !found::listed(p.depends@, need);
    law_makes(env, &*p, arbitrary(), arbitrary(), env.arch(), need);
    assert(env.makes(who, is_make)(need) == flag);
    let needs = seq![need];
    assert(needs.drop_first() =~= Seq::empty());
    found::law_sat_build(env, st.build, dep);
    found::law_sat_install(env, st.install, dep);
    let d = env.depth();
    let s2 = aur_tree::aur_dep(env, d, s1, targs, need, flag);
    let n = St { stack: s1.stack.push(DepMissingV { pkg: q.name@, dep: dep.text }), ..s1.resolve(dep.text) };
    assert(aur_tree::pkg_deps(env, (d - 1) as nat, n, targs, AurOrPkgbuild::Aur(&*q), true) == n);
    let added = Package { pkg: q, make: flag, target: false };
    assert(s2.build == st.add_aur(added).build);
    let s3 = aur_tree::aur_deps(env, d, s2, targs, needs.drop_first(), env.makes(who, is_make));
    assert(s3 == s2);
    assert(aur_tree::pkg_deps(env, d, s1, targs, who, is_make) == s2);
    let s4 = s2.pop();
    let b = s4.build.len() - 1;
    let pkgs = s4.build[b]->Aur_pkgs;
    let k = pkgs.len() - 1;
    assert(pkgs[k] == added);
    assert(is_aur_at(s4.build, b, k, q, flag));
    assert(!targets::builds(s4.build, p.name@)) by {
        if targets::builds(s4.build, p.name@) {
            let i = choose|i: int|
                0 <= i < s4.build.len() && (#[trigger] s4.build[i]).names().contains(p.name@);
            let names = s4.build[i].names();
            let j = choose|j: int| 0 <= j < names.len() && names[j] == p.name@;
            if i < b {
                assert(s4.build[i] == st.build[i]);
                assert(st.build[i].names().contains(p.name@));
            } else {
                if j < k {
                    assert(st.build[b]->Aur_pkgs[j] == pkgs[j]);
                    assert(st.build[b].names()[j] == p.name@);
                    assert(st.build[b].names().contains(p.name@));
                }
            }
        }
    }
    let last = Package { pkg: p, make: is_make, target: is_target };
    let r = s4.add_aur(last);
    assert(r.build == targets::aur_target(env, st, targ, make, is_target, targs).build);
    assert(is_aur_at(r.build, b, k, q, flag)) by {
        if r.build.len() > s4.build.len() {
            assert(r.build[b] == s4.build[b]);
        } else {
            assert(r.build[b]->Aur_pkgs[k] == pkgs[k]);
        }
    }
}

} // verus!
