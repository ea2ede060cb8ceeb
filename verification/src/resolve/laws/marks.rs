//! Which packages are targets and which are make only.
use vstd::prelude::*;
use crate::alpm::AlpmPkg;
use crate::base::{AurPackage, BaseV, Package, Pkgbuild};
use crate::depend;
use crate::depend::DependV;
use crate::model::{Env, St};
use crate::pkg::{AurOrPkgbuild, Srcinfo};
use crate::resolve::aur_tree;
use crate::resolve::laws;
use crate::resolve::split::TargetsV;
use crate::resolve::targets;
use crate::resolve::tree;
use crate::target::TargV;

verus! {

/// The package of the name is picked for one of the targets that `of` holds for.
pub open spec fn asked_for<'a>(
    env: Env<'a>,
    t: TargetsV<'a>,
    is_target: bool,
    of: spec_fn(Seq<char>) -> bool,
    name: Seq<char>,
) -> bool {
    ||| exists|i: int|
        0 <= i < t.repo.len() && (#[trigger] t.repo[i]).1.name@ == name && of(t.repo[i].0.pkg)
    ||| exists|i: int|
        0 <= i < t.pkgbuild.len() && of((#[trigger] t.pkgbuild[i]).pkg) && (env.pkgbuild_dep(
            t.pkgbuild[i].repo,
            (env.m.depend)(t.pkgbuild[i].pkg),
        ) matches Some(f) && f.2.pkgname@ == name)
    ||| exists|i: int|
        0 <= i < t.aur.len() && of(#[trigger] t.aur[i]) && (env.select_aur(
            (env.m.depend)(t.aur[i]),
            is_target,
        ) matches Some(p) && p.name@ == name)
}

/// The package of the name is picked for the dependency.
pub open spec fn picked<'a>(env: Env<'a>, need: Seq<char>, name: Seq<char>) -> bool {
    let dep = (env.m.depend)(need);
    ||| env.pkgbuild_dep(None, dep) matches Some(f) && f.2.pkgname@ == name
    ||| env.select_aur(dep, false) matches Some(p) && p.name@ == name
}

/// The package of the name is picked for a dependency that the package needs to run.
pub open spec fn runs_with<'a>(env: Env<'a>, who: AurOrPkgbuild<'_>, name: Seq<char>) -> bool {
    exists|i: int|
        0 <= i < who.run_needs(env.arch()).len() && picked(
            env,
            #[trigger] who.run_needs(env.arch())[i],
            name,
        )
}

/// The package of the name is picked for a dependency that one of the targets that `of` holds for
/// needs to run.
pub open spec fn runs_target<'a>(
    env: Env<'a>,
    t: TargetsV<'a>,
    is_target: bool,
    of: spec_fn(Seq<char>) -> bool,
    name: Seq<char>,
) -> bool {
    ||| exists|i: int|
        0 <= i < t.pkgbuild.len() && of((#[trigger] t.pkgbuild[i]).pkg) && (env.pkgbuild_dep(
            t.pkgbuild[i].repo,
            (env.m.depend)(t.pkgbuild[i].pkg),
        ) matches Some(f) && runs_with(env, AurOrPkgbuild::Pkgbuild(f.1, f.2), name))
    ||| exists|i: int|
        0 <= i < t.aur.len() && of(#[trigger] t.aur[i]) && (env.select_aur(
            (env.m.depend)(t.aur[i]),
            is_target,
        ) matches Some(p) && runs_with(env, AurOrPkgbuild::Aur(&*p), name))
}

/// `run` holds for what is picked for the dependencies that the package needs to run.
spec fn runs_right<'a>(
    env: Env<'a>,
    who: AurOrPkgbuild<'_>,
    run: spec_fn(Seq<char>) -> bool,
) -> bool {
    forall|name: Seq<char>| #[trigger] runs_with(env, who, name) ==> run(name)
}

/// `run` holds for what is picked for the dependency.
spec fn picks_right<'a>(
    env: Env<'a>,
    need: Seq<char>,
    run: spec_fn(Seq<char>) -> bool,
) -> bool {
    forall|name: Seq<char>| #[trigger] picked(env, need, name) ==> run(name)
}

/// A package is noted as a target, or as more than make only, only where that is right for its
/// name.
pub open spec fn marks_right<'a>(
    st: St<'a>,
    target: spec_fn(Seq<char>) -> bool,
    run: spec_fn(Seq<char>) -> bool,
) -> bool {
    &&& forall|i: int|
        0 <= i < st.install.len() ==> ((#[trigger] st.install[i]).target ==> target(
            st.install[i].pkg.name@,
        )) && (!st.install[i].make ==> run(st.install[i].pkg.name@))
    &&& forall|b: int| 0 <= b < st.build.len() ==> base_right(#[trigger] st.build[b], target, run)
}

/// The same of the packages of a base.
pub open spec fn base_right<'a>(
    base: BaseV<'a>,
    target: spec_fn(Seq<char>) -> bool,
    run: spec_fn(Seq<char>) -> bool,
) -> bool {
    forall|k: int|
        0 <= k < base.names().len() ==> (base.targets()[k] ==> target(#[trigger] base.names()[k]))
            && (!base.makes()[k] ==> run(base.names()[k]))
}

/// Adding an AUR package.
proof fn lemma_aur<'a>(
    st: St<'a>,
    p: AurPackage,
    target: spec_fn(Seq<char>) -> bool,
    run: spec_fn(Seq<char>) -> bool,
)
    requires
        marks_right(st, target, run),
        p.target ==> target(p.pkg.name@),
        !p.make ==> run(p.pkg.name@),
    ensures
        marks_right(st.add_aur(p), target, run),
{
    let r = st.add_aur(p);
    let n = st.build.len() as int;
    assert forall|b: int| 0 <= b < r.build.len() implies base_right(
        #[trigger] r.build[b],
        target,
        run,
    ) by {
        if b < n {
            assert(base_right(st.build[b], target, run));
        }
        if b == r.build.len() - 1 {
            let base = r.build[b];
            assert forall|k: int| 0 <= k < base.names().len() implies (base.targets()[k] ==> target(
                #[trigger] base.names()[k],
            )) && (!base.makes()[k] ==> run(base.names()[k])) by {
                if k < base.names().len() - 1 {
                    assert(base.names()[k] == st.build[b].names()[k]);
                    assert(base.targets()[k] == st.build[b].targets()[k]);
                    assert(base.makes()[k] == st.build[b].makes()[k]);
                } else {
                    assert(base->Aur_pkgs[k] == p);
                }
            }
        }
    }
}

/// Adding a package of a pkgbuild repo.
proof fn lemma_pkgbuild<'a>(
    st: St<'a>,
    repo: Seq<char>,
    s: &'a Srcinfo,
    p: Pkgbuild<'a>,
    target: spec_fn(Seq<char>) -> bool,
    run: spec_fn(Seq<char>) -> bool,
)
    requires
        marks_right(st, target, run),
        p.target ==> target(p.pkg.pkgname@),
        !p.make ==> run(p.pkg.pkgname@),
    ensures
        marks_right(st.add_pkgbuild(repo, s, p), target, run),
{
    let r = st.add_pkgbuild(repo, s, p);
    let n = st.build.len() as int;
    assert forall|b: int| 0 <= b < r.build.len() implies base_right(
        #[trigger] r.build[b],
        target,
        run,
    ) by {
        if b < n {
            assert(base_right(st.build[b], target, run));
        }
        if b == r.build.len() - 1 {
            let base = r.build[b];
            assert forall|k: int| 0 <= k < base.names().len() implies (base.targets()[k] ==> target(
                #[trigger] base.names()[k],
            )) && (!base.makes()[k] ==> run(base.names()[k])) by {
                if k < base.names().len() - 1 {
                    assert(base.names()[k] == st.build[b].names()[k]);
                    assert(base.targets()[k] == st.build[b].targets()[k]);
                    assert(base.makes()[k] == st.build[b].makes()[k]);
                } else {
                    assert(base->Pkgbuild_pkgs[k] == p);
                }
            }
        }
    }
}

/// Noting that a package that is to be built is asked for.
proof fn lemma_mark_build<'a>(
    st: St<'a>,
    name: Seq<char>,
    is_make: bool,
    is_target: bool,
    target: spec_fn(Seq<char>) -> bool,
    run: spec_fn(Seq<char>) -> bool,
)
    requires
        marks_right(st, target, run),
        is_target ==> target(name),
        !is_make ==> run(name),
    ensures
        marks_right(st.mark_build(name, is_make, is_target), target, run),
{
    let r = st.mark_build(name, is_make, is_target);
    assert forall|b: int| 0 <= b < r.build.len() implies base_right(
        #[trigger] r.build[b],
        target,
        run,
    ) by {
        let base = r.build[b];
        let before = st.build[b];
        assert(base_right(before, target, run));
        assert forall|k: int| 0 <= k < base.names().len() implies (base.targets()[k] ==> target(
            #[trigger] base.names()[k],
        )) && (!base.makes()[k] ==> run(base.names()[k])) by {
            assert(base.names()[k] == before.names()[k]);
            assert(base.targets()[k] ==> before.targets()[k] || (is_target && base.names()[k]
                == name));
            assert(!base.makes()[k] ==> !before.makes()[k] || (!is_make && base.names()[k] == name));
        }
    }
}

/// Building what a package depends on marks what the package needs to run at most.
proof fn lemma_pkg_deps<'a>(
    env: Env<'a>,
    depth: nat,
    st: St<'a>,
    targs: Seq<Seq<char>>,
    who: AurOrPkgbuild<'_>,
    make: bool,
    target: spec_fn(Seq<char>) -> bool,
    run: spec_fn(Seq<char>) -> bool,
)
    requires
        marks_right(st, target, run),
        !make ==> runs_right(env, who, run),
    ensures
        marks_right(aur_tree::pkg_deps(env, depth, st, targs, who, make), target, run),
    decreases depth, 2nat, 0nat,
{
    let makes = env.makes(who, make);
    assert forall|need: Seq<char>| !#[trigger] makes(need) implies picks_right(env, need, run) by {
        let needs = who.run_needs(env.arch());
        let i = choose|i: int| 0 <= i < needs.len() && needs[i] == need;
        assert forall|name: Seq<char>| #[trigger] picked(env, need, name) implies run(name) by {
            assert(picked(env, needs[i], name));
            assert(runs_with(env, who, name));
        }
    }
    lemma_aur_deps(env, depth, st, targs, env.needs(who), makes, target, run);
}

/// Building what each of the dependencies needs marks what is not make only at most.
proof fn lemma_aur_deps<'a>(
    env: Env<'a>,
    depth: nat,
    st: St<'a>,
    targs: Seq<Seq<char>>,
    needs: Seq<Seq<char>>,
    make: spec_fn(Seq<char>) -> bool,
    target: spec_fn(Seq<char>) -> bool,
    run: spec_fn(Seq<char>) -> bool,
)
    requires
        marks_right(st, target, run),
        forall|need: Seq<char>| !#[trigger] make(need) ==> picks_right(env, need, run),
    ensures
        marks_right(aur_tree::aur_deps(env, depth, st, targs, needs, make), target, run),
    decreases depth, 1nat, needs.len(),
{
    if needs.len() > 0 {
        let s = aur_tree::aur_dep(env, depth, st, targs, needs[0], make(needs[0]));
        lemma_aur_dep(env, depth, st, targs, needs[0], make(needs[0]), target, run);
        lemma_aur_deps(env, depth, s, targs, needs.drop_first(), make, target, run);
    }
}

/// Building what one dependency needs marks what is picked for it at most.
proof fn lemma_aur_dep<'a>(
    env: Env<'a>,
    depth: nat,
    st: St<'a>,
    targs: Seq<Seq<char>>,
    need: Seq<char>,
    make: bool,
    target: spec_fn(Seq<char>) -> bool,
    run: spec_fn(Seq<char>) -> bool,
)
    requires
        marks_right(st, target, run),
        !make ==> picks_right(env, need, run),
    ensures
        marks_right(aur_tree::aur_dep(env, depth, st, targs, need, make), target, run),
    decreases depth, 0nat, 0nat,
{
    let dep = (env.m.depend)(need);
    let s = st.resolve(dep.text);
    if let Some(p) = env.repo_sat(dep.text) {
        let d = tree::repo_depth(env);
        lemma_repo_pkg(env, d, s.push(p.name@, dep.text), &p, false, true, target, run);
    }
    if depth > 0 {
        let e = (depth - 1) as nat;
        if let Some((repo, srcinfo, pkg)) = env.pkgbuild_dep(None, dep) {
            let who = AurOrPkgbuild::Pkgbuild(srcinfo, pkg);
            let s2 = s.push(pkg.pkgname@, dep.text);
            lemma_pkg_deps(env, e, s2, targs, who, true, target, run);
            let s3 = aur_tree::pkg_deps(env, e, s2, targs, who, true).pop();
            assert(picked(env, need, pkg.pkgname@));
            lemma_pkgbuild(s3, repo, srcinfo, Package { pkg, make, target: false }, target, run);
        }
        if let Some(p) = env.select_aur(dep, false) {
            let who = AurOrPkgbuild::Aur(&*p);
            let s2 = s.push(p.name@, dep.text);
            lemma_pkg_deps(env, e, s2, targs, who, true, target, run);
            let s3 = aur_tree::pkg_deps(env, e, s2, targs, who, true).pop();
            assert(picked(env, need, p.name@));
            lemma_aur(s3, Package { pkg: p, make, target: false }, target, run);
        }
    }
}

/// Installing a repo package marks no other.
proof fn lemma_repo_pkg<'a>(
    env: Env<'a>,
    depth: nat,
    st: St<'a>,
    pkg: &'a AlpmPkg,
    is_target: bool,
    make: bool,
    target: spec_fn(Seq<char>) -> bool,
    run: spec_fn(Seq<char>) -> bool,
)
    requires
        marks_right(st, target, run),
        is_target ==> target(pkg.name@),
        !make ==> run(pkg.name@),
    ensures
        marks_right(tree::repo_pkg(env, depth, st, pkg, is_target, make), target, run),
    decreases depth, 2nat, 0nat,
{
    let s = St { seen: st.seen.insert(pkg.name@), ..st };
    lemma_repo_deps(env, depth, s, depend::deps(pkg.depends@), target, run);
}

/// Installing what the dependencies of a repo package need marks nothing.
proof fn lemma_repo_deps<'a>(
    env: Env<'a>,
    depth: nat,
    st: St<'a>,
    deps: Seq<DependV>,
    target: spec_fn(Seq<char>) -> bool,
    run: spec_fn(Seq<char>) -> bool,
)
    requires
        marks_right(st, target, run),
    ensures
        marks_right(tree::repo_deps(env, depth, st, deps), target, run),
    decreases depth, 1nat, deps.len(),
{
    if deps.len() > 0 {
        let dep = deps[0];
        if let Some(p) = env.repo_sat(dep.text) {
            if depth > 0 {
                let e = (depth - 1) as nat;
                let s = st.push(p.name@, dep.text);
                lemma_repo_pkg(env, e, s, &p, false, true, target, run);
            }
        }
        let s = tree::repo_dep(env, depth, st, dep);
        lemma_repo_deps(env, depth, s, deps.drop_first(), target, run);
    }
}

/// Resolving the targets that come from sync databases.
proof fn lemma_repo_targets<'a>(
    env: Env<'a>,
    st: St<'a>,
    ts: Seq<(TargV, &'a AlpmPkg)>,
    make: Seq<Seq<char>>,
    is_target: bool,
    target: spec_fn(Seq<char>) -> bool,
    run: spec_fn(Seq<char>) -> bool,
)
    requires
        marks_right(st, target, run),
        forall|i: int|
            0 <= i < ts.len() ==> (is_target ==> target((#[trigger] ts[i]).1.name@)) && (
            !make.contains(ts[i].0.pkg) ==> run(ts[i].1.name@)),
    ensures
        marks_right(targets::repo_targets(env, st, ts, make, is_target), target, run),
    decreases ts.len(),
{
    if ts.len() > 0 {
        let (targ, pkg) = ts[0];
        let s = targets::repo_target(env, st, targ, pkg, make, is_target);
        let rest = ts.drop_first();
        assert((is_target ==> target(ts[0].1.name@)) && (!make.contains(ts[0].0.pkg) ==> run(
            ts[0].1.name@,
        )));
        lemma_repo_pkg(
            env,
            tree::repo_depth(env),
            st.push(pkg.name@, targ.pkg),
            pkg,
            is_target,
            make.contains(targ.pkg),
            target,
            run,
        );
        assert forall|i: int| 0 <= i < rest.len() implies (is_target ==> target(
            (#[trigger] rest[i]).1.name@,
        )) && (!make.contains(rest[i].0.pkg) ==> run(rest[i].1.name@)) by {
            assert(rest[i] == ts[i + 1]);
        }
        lemma_repo_targets(env, s, rest, make, is_target, target, run);
    }
}

/// Resolving the targets that come from pkgbuild repos.
proof fn lemma_pkgbuild_targets<'a>(
    env: Env<'a>,
    st: St<'a>,
    ts: Seq<TargV>,
    make: Seq<Seq<char>>,
    is_target: bool,
    targs: Seq<Seq<char>>,
    target: spec_fn(Seq<char>) -> bool,
    run: spec_fn(Seq<char>) -> bool,
)
    requires
        marks_right(st, target, run),
        forall|i: int|
            0 <= i < ts.len() ==> (env.pkgbuild_dep(
                (#[trigger] ts[i]).repo,
                (env.m.depend)(ts[i].pkg),
            ) matches Some(f) ==> (is_target ==> target(f.2.pkgname@)) && (!make.contains(ts[i].pkg)
                ==> run(f.2.pkgname@) && runs_right(
                env,
                AurOrPkgbuild::Pkgbuild(f.1, f.2),
                run,
            ))),
    ensures
        marks_right(targets::pkgbuild_targets(env, st, ts, make, is_target, targs), target, run),
    decreases ts.len(),
{
    if ts.len() > 0 {
        let targ = ts[0];
        let s = targets::pkgbuild_target(env, st, targ, make, is_target, targs);
        let rest = ts.drop_first();
        if let Some((repo, srcinfo, pkg)) = env.pkgbuild_dep(targ.repo, (env.m.depend)(targ.pkg)) {
            let who = AurOrPkgbuild::Pkgbuild(srcinfo, pkg);
            let is_make = make.contains(targ.pkg);
            let s1 = st.push(pkg.pkgname@, targ.pkg);
            lemma_pkg_deps(env, env.depth(), s1, targs, who, is_make, target, run);
            let s2 = aur_tree::pkg_deps(env, env.depth(), s1, targs, who, is_make).pop();
            let q = Package { pkg, make: is_make, target: is_target };
            lemma_pkgbuild(s2, repo, srcinfo, q, target, run);
            lemma_mark_build(s2, pkg.pkgname@, is_make, is_target, target, run);
        }
        assert forall|i: int| 0 <= i < rest.len() implies (env.pkgbuild_dep(
            (#[trigger] rest[i]).repo,
            (env.m.depend)(rest[i].pkg),
        ) matches Some(f) ==> (is_target ==> target(f.2.pkgname@)) && (!make.contains(rest[i].pkg)
            ==> run(f.2.pkgname@) && runs_right(env, AurOrPkgbuild::Pkgbuild(f.1, f.2), run))) by {
            assert(rest[i] == ts[i + 1]);
        }
        lemma_pkgbuild_targets(env, s, rest, make, is_target, targs, target, run);
    }
}

/// Resolving the targets that come from the AUR.
proof fn lemma_aur_targets<'a>(
    env: Env<'a>,
    st: St<'a>,
    ts: Seq<Seq<char>>,
    make: Seq<Seq<char>>,
    is_target: bool,
    targs: Seq<Seq<char>>,
    target: spec_fn(Seq<char>) -> bool,
    run: spec_fn(Seq<char>) -> bool,
)
    requires
        marks_right(st, target, run),
        forall|i: int|
            0 <= i < ts.len() ==> (env.select_aur(
                (env.m.depend)(#[trigger] ts[i]),
                is_target,
            ) matches Some(p) ==> (is_target ==> target(p.name@)) && (!make.contains(ts[i]) ==> run(
                p.name@,
            ) && runs_right(env, AurOrPkgbuild::Aur(&*p), run))),
    ensures
        marks_right(targets::aur_targets(env, st, ts, make, is_target, targs), target, run),
    decreases ts.len(),
{
    if ts.len() > 0 {
        let targ = ts[0];
        let s = targets::aur_target(env, st, targ, make, is_target, targs);
        let rest = ts.drop_first();
        let s0 = St { seen_target: st.seen_target.insert(targ), ..st };
        assert(marks_right(s0, target, run));
        if let Some(p) = env.select_aur((env.m.depend)(targ), is_target) {
            let who = AurOrPkgbuild::Aur(&*p);
            let is_make = make.contains(targ);
            let s1 = s0.push(p.name@, targ);
            lemma_pkg_deps(env, env.depth(), s1, targs, who, is_make, target, run);
            let s2 = aur_tree::pkg_deps(env, env.depth(), s1, targs, who, is_make).pop();
            lemma_aur(s2, Package { pkg: p, make: is_make, target: is_target }, target, run);
            lemma_mark_build(s2, p.name@, is_make, is_target, target, run);
        }
        assert forall|i: int| 0 <= i < rest.len() implies (env.select_aur(
            (env.m.depend)(#[trigger] rest[i]),
            is_target,
        ) matches Some(p) ==> (is_target ==> target(p.name@)) && (!make.contains(rest[i]) ==> run(
            p.name@,
        ) && runs_right(env, AurOrPkgbuild::Aur(&*p), run))) by {
            assert(rest[i] == ts[i + 1]);
        }
        lemma_aur_targets(env, s, rest, make, is_target, targs, target, run);
    }
}

/// Only what is asked for is noted as a target, and, before it is worked out what else is needed at
/// runtime, only what is asked for and not as a make dependency, and what that needs to run, is more
/// than make only.
pub proof fn law_marks<'a>(
    env: Env<'a>,
    st: St<'a>,
    t: TargetsV<'a>,
    make_deps: Seq<TargV>,
    is_target: bool,
)
    requires
        laws::fresh(st),
    ensures
        ({
            let make = targets::pkg_parts(make_deps);
            let target = |name: Seq<char>|
                is_target && asked_for(env, t, is_target, |s: Seq<char>| true, name);
            let run = |name: Seq<char>|
                asked_for(env, t, is_target, |s: Seq<char>| !make.contains(s), name) || runs_target(
                    env,
                    t,
                    is_target,
                    |s: Seq<char>| !make.contains(s),
                    name,
                );
            &&& marks_right(
                targets::all_targets(
                    env,
                    St { resolved: Set::empty(), ..st },
                    t,
                    make,
                    is_target,
                ),
                target,
                run,
            )
            &&& marks_right(
                targets::outcome(env, st, t, make_deps, is_target),
                target,
                |name: Seq<char>| true,
            )
        }),
{
    let make = targets::pkg_parts(make_deps);
    let any = |s: Seq<char>| true;
    let not_make = |s: Seq<char>| !make.contains(s);
    let target = |name: Seq<char>| is_target && asked_for(env, t, is_target, any, name);
    let run = |name: Seq<char>|
        asked_for(env, t, is_target, not_make, name) || runs_target(
            env,
            t,
            is_target,
            not_make,
            name,
        );
    let s0 = St { resolved: Set::empty(), ..st };
    let s1 = targets::repo_targets(env, s0, t.repo, make, is_target);
    let s2 = targets::pkgbuild_targets(env, s1, t.pkgbuild, make, is_target, t.aur);
    let s = targets::aur_targets(env, s2, t.aur, make, is_target, t.aur);
    lemma_repo_targets(env, s0, t.repo, make, is_target, target, run);
    lemma_pkgbuild_targets(env, s1, t.pkgbuild, make, is_target, t.aur, target, run);
    lemma_aur_targets(env, s2, t.aur, make, is_target, t.aur, target, run);
    let r = targets::outcome(env, st, t, make_deps, is_target);
    let all = |name: Seq<char>| true;
    assert forall|b: int| 0 <= b < r.build.len() implies base_right(
        #[trigger] r.build[b],
        target,
        all,
    ) by {
        assert(base_right(s.build[b], target, run));
        assert forall|k: int| 0 <= k < r.build[b].names().len() implies (r.build[b].targets()[k]
            ==> target(#[trigger] r.build[b].names()[k])) && (!r.build[b].makes()[k] ==> all(
            r.build[b].names()[k],
        )) by {
            assert(r.build[b].names()[k] == s.build[b].names()[k]);
            assert(r.build[b].targets()[k] == s.build[b].targets()[k]);
        }
    }
}

} // verus!
