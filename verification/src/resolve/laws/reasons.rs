//! Why a package is installed or built, and why a dependency is missing.
use std::sync::Arc;
use vstd::prelude::*;
use crate::alpm::AlpmPkg;
use crate::base::{AurPackage, BaseV, Package, Pkgbuild, RepoPackage};
use crate::depend;
use crate::depend::DependV;
use crate::flags::Flags;
use crate::model::laws as found;
use crate::model::{Env, St};
use crate::pkg::{AurOrPkgbuild, AurPkg, Srcinfo, SrcinfoPkg};
use crate::resolve::aur_tree;
use crate::resolve::choice;
use crate::resolve::laws;
use crate::resolve::split::TargetsV;
use crate::resolve::targets;
use crate::resolve::tree;
use crate::satisfies;
use crate::satisfies::Satisfies;
use crate::target::TargV;

verus! {

/// The package of a database depends on it.
pub open spec fn repo_lists(p: AlpmPkg, dep: DependV) -> bool {
    exists|j: int| 0 <= j < p.depends@.len() && (#[trigger] p.depends@[j])@ == dep
}

/// The package that is built needs it, to be built or to run.
pub open spec fn who_lists<'a>(env: Env<'a>, who: AurOrPkgbuild<'_>, dep: DependV) -> bool {
    exists|i: int|
        0 <= i < env.needs(who).len() && (env.m.depend)(#[trigger] env.needs(who)[i]) == dep
}

/// The package of a pkgbuild repo needs it, by a .SRCINFO of the repos for the base.
pub open spec fn pkgbuild_lists<'a>(
    env: Env<'a>,
    p: &'a SrcinfoPkg,
    base: Seq<char>,
    dep: DependV,
) -> bool {
    exists|s: &'a Srcinfo| #[trigger]
        choice::in_repos(env.repos, s) && s.base.pkgbase@ == base && who_lists(
            env,
            AurOrPkgbuild::Pkgbuild(s, p),
            dep,
        )
}

/// A package of the base needs it.
pub open spec fn base_lists<'a>(env: Env<'a>, base: BaseV<'a>, dep: DependV) -> bool {
    match base {
        BaseV::Aur { pkgs, .. } => exists|k: int|
            0 <= k < pkgs.len() && who_lists(env, AurOrPkgbuild::Aur(&*(#[trigger] pkgs[k]).pkg), dep),
        BaseV::Pkgbuild { srcinfo, pkgs, .. } => exists|k: int|
            0 <= k < pkgs.len() && pkgbuild_lists(
                env,
                (#[trigger] pkgs[k]).pkg,
                srcinfo.base.pkgbase@,
                dep,
            ),
    }
}

/// A package that is to be installed depends on it.
pub open spec fn install_lists<'a>(st: St<'a>, dep: DependV) -> bool {
    exists|i: int| 0 <= i < st.install.len() && repo_lists(*(#[trigger] st.install[i]).pkg, dep)
}

/// A package that is to be built needs it, or one that is picked for a target does.
pub open spec fn build_lists<'a>(
    env: Env<'a>,
    t: TargetsV<'a>,
    is_target: bool,
    st: St<'a>,
    dep: DependV,
) -> bool {
    ||| exists|b: int| 0 <= b < st.build.len() && base_lists(env, #[trigger] st.build[b], dep)
    ||| exists|i: int|
        0 <= i < t.pkgbuild.len() && (env.pkgbuild_dep(
            (#[trigger] t.pkgbuild[i]).repo,
            (env.m.depend)(t.pkgbuild[i].pkg),
        ) matches Some(f) && who_lists(env, AurOrPkgbuild::Pkgbuild(f.1, f.2), dep))
    ||| exists|i: int|
        0 <= i < t.aur.len() && (env.select_aur(
            (env.m.depend)(#[trigger] t.aur[i]),
            is_target,
        ) matches Some(p) && who_lists(env, AurOrPkgbuild::Aur(&*p), dep))
}

/// A sync package is to be installed for the dependency: nothing that is installed or to be taken as
/// installed meets it, and libalpm picks the package for it.
pub open spec fn sync_why<'a>(env: Env<'a>, dep: DependV, p: AlpmPkg) -> bool {
    !env.assumed(dep) && !env.sat_local(dep) && env.repo_sat(dep.text) == Some(p)
}

/// What is found for the dependency in the AUR is asked for as a target.
pub open spec fn is_targeted<'a>(env: Env<'a>, t: TargetsV<'a>, dep: DependV) -> bool {
    env.find_aur(dep) matches Some(q) && exists|i: int|
        0 <= i < t.aur.len() && q.which(
            env.m,
            (env.m.depend)(#[trigger] t.aur[i]),
            env.flags.has(Flags::NO_DEP_VERSION),
        ) is Some
}

/// A package is to be built for the dependency: it is not to be taken as installed, and is asked for
/// as a target, or no sync package meets it and no installed one does, unless that does not count.
pub open spec fn build_why<'a>(env: Env<'a>, t: TargetsV<'a>, dep: DependV) -> bool {
    &&& !env.assumed(dep)
    &&& is_targeted(env, t, dep) || (env.repo_sat(dep.text) is None && (!env.sat_local(dep)
        || env.flags.has(Flags::RESOLVE_SATISFIED_PKGBUILDS)))
}

/// The AUR package is picked for the dependency, which no package of a pkgbuild repo meets.
pub open spec fn aur_why<'a>(env: Env<'a>, t: TargetsV<'a>, dep: DependV, p: Arc<AurPkg>) -> bool {
    build_why(env, t, dep) && env.pkgbuild_dep(None, dep) is None && env.select_aur(dep, false)
        == Some(p)
}

/// The package of a pkgbuild repo is picked for the dependency.
pub open spec fn pkgbuild_why<'a>(
    env: Env<'a>,
    t: TargetsV<'a>,
    dep: DependV,
    p: &'a SrcinfoPkg,
) -> bool {
    build_why(env, t, dep) && (env.pkgbuild_dep(None, dep) matches Some(f) && f.2 == p)
}

/// Nothing can be had for the dependency of a package that is to be installed.
pub open spec fn sync_lacks<'a>(env: Env<'a>, dep: DependV, text: Seq<char>) -> bool {
    dep.text == text && !env.assumed(dep) && !env.sat_local(dep) && env.repo_sat(dep.text) is None
}

/// Nothing can be had for the dependency of a package that is to be built.
pub open spec fn build_lacks<'a>(
    env: Env<'a>,
    t: TargetsV<'a>,
    dep: DependV,
    text: Seq<char>,
) -> bool {
    dep.text == text && build_why(env, t, dep) && env.pkgbuild_dep(None, dep) is None
        && env.select_aur(dep, false) is None
}

/// Nothing can be had for one of the targets.
pub open spec fn target_lacks<'a>(
    env: Env<'a>,
    t: TargetsV<'a>,
    is_target: bool,
    text: Seq<char>,
) -> bool {
    ||| exists|i: int|
        0 <= i < t.pkgbuild.len() && env.pkgbuild_dep(
            (#[trigger] t.pkgbuild[i]).repo,
            (env.m.depend)(t.pkgbuild[i].pkg),
        ) is None && (env.m.depend)(t.pkgbuild[i].pkg).text == text
    ||| exists|i: int|
        0 <= i < t.aur.len() && env.select_aur(
            (env.m.depend)(#[trigger] t.aur[i]),
            is_target,
        ) is None && (env.m.depend)(t.aur[i]).text == text
}

/// The sync package is picked for a target or for a dependency of what is installed or built.
pub open spec fn install_right<'a>(
    env: Env<'a>,
    t: TargetsV<'a>,
    repo: spec_fn(DependV) -> bool,
    built: spec_fn(DependV) -> bool,
    p: &'a AlpmPkg,
) -> bool {
    ||| exists|i: int| 0 <= i < t.repo.len() && (#[trigger] t.repo[i]).1 == p
    ||| exists|d: DependV| #[trigger] sync_why(env, d, *p) && (repo(d) || built(d))
}

/// The AUR package is picked for a target or for a dependency of what is built.
pub open spec fn aur_right<'a>(
    env: Env<'a>,
    t: TargetsV<'a>,
    is_target: bool,
    built: spec_fn(DependV) -> bool,
    p: Arc<AurPkg>,
) -> bool {
    ||| exists|i: int|
        0 <= i < t.aur.len() && env.select_aur((env.m.depend)(#[trigger] t.aur[i]), is_target)
            == Some(p)
    ||| exists|d: DependV| #[trigger] aur_why(env, t, d, p) && built(d)
}

/// The package of a pkgbuild repo is picked for a target or for a dependency of what is built.
pub open spec fn pkgbuild_right<'a>(
    env: Env<'a>,
    t: TargetsV<'a>,
    built: spec_fn(DependV) -> bool,
    p: &'a SrcinfoPkg,
) -> bool {
    ||| exists|i: int|
        0 <= i < t.pkgbuild.len() && (env.pkgbuild_dep(
            (#[trigger] t.pkgbuild[i]).repo,
            (env.m.depend)(t.pkgbuild[i].pkg),
        ) matches Some(f) && f.2 == p)
    ||| exists|d: DependV| #[trigger] pkgbuild_why(env, t, d, p) && built(d)
}

/// The .SRCINFO is in a pkgbuild repo of the name.
pub open spec fn in_named_repo<'a>(env: Env<'a>, repo: Seq<char>, s: &'a Srcinfo) -> bool {
    exists|r: int|
        0 <= r < env.repos.len() && (#[trigger] env.repos[r]).name@ == repo
            && env.repos[r].pkgs@.contains(s)
}

/// Each package of the base is picked for a target or for a dependency of what is built, and a base of
/// a pkgbuild repo is from the repo that it names.
pub open spec fn base_right<'a>(
    env: Env<'a>,
    t: TargetsV<'a>,
    is_target: bool,
    built: spec_fn(DependV) -> bool,
    base: BaseV<'a>,
) -> bool {
    match base {
        BaseV::Aur { pkgs, .. } => forall|k: int|
            0 <= k < pkgs.len() ==> aur_right(env, t, is_target, built, (#[trigger] pkgs[k]).pkg),
        BaseV::Pkgbuild { repo, srcinfo, pkgs, .. } => in_named_repo(env, repo, srcinfo) && forall|
            k: int,
        |
            0 <= k < pkgs.len() ==> pkgbuild_right(env, t, built, (#[trigger] pkgs[k]).pkg),
    }
}

/// What is missing cannot be had, and a target or a dependency of what is installed or built asks for
/// it.
pub open spec fn missing_right<'a>(
    env: Env<'a>,
    t: TargetsV<'a>,
    is_target: bool,
    repo: spec_fn(DependV) -> bool,
    built: spec_fn(DependV) -> bool,
    text: Seq<char>,
) -> bool {
    ||| target_lacks(env, t, is_target, text)
    ||| exists|d: DependV| #[trigger] sync_lacks(env, d, text) && repo(d)
    ||| exists|d: DependV| #[trigger] build_lacks(env, t, d, text) && built(d)
}

/// There is a reason for all that is installed, built and, from a place on, missing. `repo` and
/// `built` hold for the dependencies of what is installed and built.
pub open spec fn reasons<'a>(
    env: Env<'a>,
    t: TargetsV<'a>,
    is_target: bool,
    from: int,
    st: St<'a>,
    repo: spec_fn(DependV) -> bool,
    built: spec_fn(DependV) -> bool,
) -> bool {
    &&& forall|i: int|
        0 <= i < st.install.len() ==> install_right(
            env,
            t,
            repo,
            built,
            (#[trigger] st.install[i]).pkg,
        )
    &&& forall|b: int|
        0 <= b < st.build.len() ==> base_right(env, t, is_target, built, #[trigger] st.build[b])
    &&& forall|n: int|
        from <= n < st.missing.len() ==> missing_right(
            env,
            t,
            is_target,
            repo,
            built,
            (#[trigger] st.missing[n]).dep,
        )
}

/// With more dependencies the reasons still hold.
proof fn lemma_more<'a>(
    env: Env<'a>,
    t: TargetsV<'a>,
    is_target: bool,
    from: int,
    st: St<'a>,
    repo: spec_fn(DependV) -> bool,
    built: spec_fn(DependV) -> bool,
    repo2: spec_fn(DependV) -> bool,
    built2: spec_fn(DependV) -> bool,
)
    requires
        reasons(env, t, is_target, from, st, repo, built),
        forall|d: DependV| #[trigger] repo(d) ==> repo2(d),
        forall|d: DependV| #[trigger] built(d) ==> built2(d),
    ensures
        reasons(env, t, is_target, from, st, repo2, built2),
{
    assert forall|p: Arc<AurPkg>| #[trigger] aur_right(env, t, is_target, built, p) implies aur_right(
        env,
        t,
        is_target,
        built2,
        p,
    ) by {
        if exists|d: DependV| #[trigger] aur_why(env, t, d, p) && built(d) {
            let d = choose|d: DependV| #[trigger] aur_why(env, t, d, p) && built(d);
            assert(aur_why(env, t, d, p) && built2(d));
        }
    }
    assert forall|p: &'a SrcinfoPkg| #[trigger] pkgbuild_right(env, t, built, p) implies pkgbuild_right(
        env,
        t,
        built2,
        p,
    ) by {
        if exists|d: DependV| #[trigger] pkgbuild_why(env, t, d, p) && built(d) {
            let d = choose|d: DependV| #[trigger] pkgbuild_why(env, t, d, p) && built(d);
            assert(pkgbuild_why(env, t, d, p) && built2(d));
        }
    }
    assert forall|i: int| 0 <= i < st.install.len() implies install_right(
        env,
        t,
        repo2,
        built2,
        (#[trigger] st.install[i]).pkg,
    ) by {
        let p = st.install[i].pkg;
        assert(install_right(env, t, repo, built, p));
        if exists|d: DependV| #[trigger] sync_why(env, d, *p) && (repo(d) || built(d)) {
            let d = choose|d: DependV| #[trigger] sync_why(env, d, *p) && (repo(d) || built(d));
            assert(sync_why(env, d, *p) && (repo2(d) || built2(d)));
        }
    }
    assert forall|b: int| 0 <= b < st.build.len() implies base_right(
        env,
        t,
        is_target,
        built2,
        #[trigger] st.build[b],
    ) by {
        assert(base_right(env, t, is_target, built, st.build[b]));
        match st.build[b] {
            BaseV::Aur { pkgs, .. } => {
                assert forall|k: int| 0 <= k < pkgs.len() implies aur_right(
                    env,
                    t,
                    is_target,
                    built2,
                    (#[trigger] pkgs[k]).pkg,
                ) by {
                    assert(aur_right(env, t, is_target, built, pkgs[k].pkg));
                }
            },
            BaseV::Pkgbuild { pkgs, .. } => {
                assert forall|k: int| 0 <= k < pkgs.len() implies pkgbuild_right(
                    env,
                    t,
                    built2,
                    (#[trigger] pkgs[k]).pkg,
                ) by {
                    assert(pkgbuild_right(env, t, built, pkgs[k].pkg));
                }
            },
        }
    }
    assert forall|n: int| from <= n < st.missing.len() implies missing_right(
        env,
        t,
        is_target,
        repo2,
        built2,
        (#[trigger] st.missing[n]).dep,
    ) by {
        let text = st.missing[n].dep;
        assert(missing_right(env, t, is_target, repo, built, text));
        if exists|d: DependV| #[trigger] sync_lacks(env, d, text) && repo(d) {
            let d = choose|d: DependV| #[trigger] sync_lacks(env, d, text) && repo(d);
            assert(sync_lacks(env, d, text) && repo2(d));
        }
        if exists|d: DependV| #[trigger] build_lacks(env, t, d, text) && built(d) {
            let d = choose|d: DependV| #[trigger] build_lacks(env, t, d, text) && built(d);
            assert(build_lacks(env, t, d, text) && built2(d));
        }
    }
}

/// The dependencies of what is to be installed, and those that `open` holds for.
pub open spec fn repo_deps<'a>(st: St<'a>, open: spec_fn(DependV) -> bool) -> spec_fn(
    DependV,
) -> bool {
    |d: DependV| open(d) || install_lists(st, d)
}

/// The dependencies of what is to be built, and those that `open` holds for.
pub open spec fn build_deps<'a>(
    env: Env<'a>,
    t: TargetsV<'a>,
    is_target: bool,
    st: St<'a>,
    open: spec_fn(DependV) -> bool,
) -> spec_fn(DependV) -> bool {
    |d: DependV| open(d) || build_lists(env, t, is_target, st, d)
}

/// Reasons, where `ro` and `bo` hold for the dependencies of packages that are being dealt with.
spec fn good<'a>(
    env: Env<'a>,
    t: TargetsV<'a>,
    is_target: bool,
    from: int,
    st: St<'a>,
    ro: spec_fn(DependV) -> bool,
    bo: spec_fn(DependV) -> bool,
) -> bool {
    0 <= from && reasons(
        env,
        t,
        is_target,
        from,
        st,
        repo_deps(st, ro),
        build_deps(env, t, is_target, st, bo),
    )
}

/// What depended on something still does.
spec fn keeps<'a>(env: Env<'a>, t: TargetsV<'a>, is_target: bool, st: St<'a>, r: St<'a>) -> bool {
    &&& forall|d: DependV| #[trigger] install_lists(st, d) ==> install_lists(r, d)
    &&& forall|d: DependV| #[trigger]
        build_lists(env, t, is_target, st, d) ==> build_lists(env, t, is_target, r, d)
}

/// A state with the same packages.
proof fn lemma_same<'a>(
    env: Env<'a>,
    t: TargetsV<'a>,
    is_target: bool,
    from: int,
    st: St<'a>,
    r: St<'a>,
    ro: spec_fn(DependV) -> bool,
    bo: spec_fn(DependV) -> bool,
)
    requires
        good(env, t, is_target, from, st, ro, bo),
        r.missing == st.missing,
        r.install.len() == st.install.len(),
        forall|i: int|
            0 <= i < st.install.len() ==> (#[trigger] r.install[i]).pkg == st.install[i].pkg,
        r.build.len() == st.build.len(),
        forall|b: int|
            0 <= b < st.build.len() ==> laws::same_pkgs(st.build[b], #[trigger] r.build[b]),
    ensures
        good(env, t, is_target, from, r, ro, bo),
        keeps(env, t, is_target, st, r),
        keeps(env, t, is_target, r, st),
{
    assert forall|d: DependV| #[trigger] install_lists(st, d) implies install_lists(r, d) by {
        let i = choose|i: int|
            0 <= i < st.install.len() && repo_lists(*(#[trigger] st.install[i]).pkg, d);
        assert(repo_lists(*r.install[i].pkg, d));
    }
    assert forall|d: DependV| #[trigger] install_lists(r, d) implies install_lists(st, d) by {
        let i = choose|i: int|
            0 <= i < r.install.len() && repo_lists(*(#[trigger] r.install[i]).pkg, d);
        assert(repo_lists(*st.install[i].pkg, d));
    }
    assert forall|b: int, d: DependV| 0 <= b < st.build.len() implies base_lists(
        env,
        st.build[b],
        d,
    ) == #[trigger] base_lists(env, r.build[b], d) by {
        assert(laws::same_pkgs(st.build[b], r.build[b]));
        if base_lists(env, st.build[b], d) {
            lemma_base_lists(env, st.build[b], r.build[b], d);
        }
        if base_lists(env, r.build[b], d) {
            lemma_base_lists(env, r.build[b], st.build[b], d);
        }
    }
    assert forall|d: DependV| #[trigger] build_lists(env, t, is_target, st, d) implies build_lists(
        env,
        t,
        is_target,
        r,
        d,
    ) by {
        if exists|b: int| 0 <= b < st.build.len() && base_lists(env, #[trigger] st.build[b], d) {
            let b = choose|b: int|
                0 <= b < st.build.len() && base_lists(env, #[trigger] st.build[b], d);
            assert(base_lists(env, r.build[b], d));
        }
    }
    assert forall|d: DependV| #[trigger] build_lists(env, t, is_target, r, d) implies build_lists(
        env,
        t,
        is_target,
        st,
        d,
    ) by {
        if exists|b: int| 0 <= b < r.build.len() && base_lists(env, #[trigger] r.build[b], d) {
            let b = choose|b: int|
                0 <= b < r.build.len() && base_lists(env, #[trigger] r.build[b], d);
            assert(base_lists(env, st.build[b], d));
        }
    }
    lemma_more(
        env,
        t,
        is_target,
        from,
        st,
        repo_deps(st, ro),
        build_deps(env, t, is_target, st, bo),
        repo_deps(r, ro),
        build_deps(env, t, is_target, r, bo),
    );
    let built = build_deps(env, t, is_target, r, bo);
    assert forall|b: int| 0 <= b < r.build.len() implies base_right(
        env,
        t,
        is_target,
        built,
        #[trigger] r.build[b],
    ) by {
        assert(laws::same_pkgs(st.build[b], r.build[b]));
        assert(base_right(env, t, is_target, built, st.build[b]));
        match (st.build[b], r.build[b]) {
            (BaseV::Aur { pkgs: p, .. }, BaseV::Aur { pkgs: q, .. }) => {
                assert forall|k: int| 0 <= k < q.len() implies aur_right(
                    env,
                    t,
                    is_target,
                    built,
                    (#[trigger] q[k]).pkg,
                ) by {
                    assert(aur_right(env, t, is_target, built, p[k].pkg));
                }
            },
            (BaseV::Pkgbuild { pkgs: p, .. }, BaseV::Pkgbuild { pkgs: q, .. }) => {
                assert forall|k: int| 0 <= k < q.len() implies pkgbuild_right(
                    env,
                    t,
                    built,
                    (#[trigger] q[k]).pkg,
                ) by {
                    assert(pkgbuild_right(env, t, built, p[k].pkg));
                }
            },
            _ => {},
        }
    }
    assert forall|i: int| 0 <= i < r.install.len() implies install_right(
        env,
        t,
        repo_deps(r, ro),
        built,
        (#[trigger] r.install[i]).pkg,
    ) by {
        assert(r.install[i].pkg == st.install[i].pkg);
    }
}

/// Bases with the same packages need the same.
proof fn lemma_base_lists<'a>(env: Env<'a>, x: BaseV<'a>, y: BaseV<'a>, d: DependV)
    requires
        laws::same_pkgs(x, y) || laws::same_pkgs(y, x),
        base_lists(env, x, d),
    ensures
        base_lists(env, y, d),
{
    match (x, y) {
        (BaseV::Aur { pkgs: p, .. }, BaseV::Aur { pkgs: q, .. }) => {
            let k = choose|k: int|
                0 <= k < p.len() && who_lists(env, AurOrPkgbuild::Aur(&*(#[trigger] p[k]).pkg), d);
            assert(q[k].pkg == p[k].pkg);
        },
        (
            BaseV::Pkgbuild { srcinfo: s, pkgs: p, .. },
            BaseV::Pkgbuild { srcinfo: z, pkgs: q, .. },
        ) => {
            let k = choose|k: int|
                0 <= k < p.len() && pkgbuild_lists(
                    env,
                    (#[trigger] p[k]).pkg,
                    s.base.pkgbase@,
                    d,
                );
            assert(q[k].pkg == p[k].pkg);
        },
        _ => {},
    }
}

/// A base has its own packages.
proof fn lemma_same_base<'a>(build: Seq<BaseV<'a>>)
    ensures
        forall|b: int| 0 <= b < build.len() ==> laws::same_pkgs(build[b], #[trigger] build[b]),
{
}

/// A state that differs in what is being dealt with only.
proof fn lemma_aside<'a>(
    env: Env<'a>,
    t: TargetsV<'a>,
    is_target: bool,
    from: int,
    st: St<'a>,
    r: St<'a>,
    ro: spec_fn(DependV) -> bool,
    bo: spec_fn(DependV) -> bool,
)
    requires
        good(env, t, is_target, from, st, ro, bo),
        r.missing == st.missing,
        r.install == st.install,
        r.build == st.build,
    ensures
        good(env, t, is_target, from, r, ro, bo),
        keeps(env, t, is_target, st, r),
        keeps(env, t, is_target, r, st),
{
    lemma_same_base(st.build);
    lemma_same(env, t, is_target, from, st, r, ro, bo);
}

/// With more packages that are being dealt with the reasons still hold.
proof fn lemma_open<'a>(
    env: Env<'a>,
    t: TargetsV<'a>,
    is_target: bool,
    from: int,
    st: St<'a>,
    ro: spec_fn(DependV) -> bool,
    bo: spec_fn(DependV) -> bool,
    ro2: spec_fn(DependV) -> bool,
    bo2: spec_fn(DependV) -> bool,
)
    requires
        good(env, t, is_target, from, st, ro, bo),
        forall|d: DependV| #[trigger] ro(d) ==> ro2(d) || install_lists(st, d),
        forall|d: DependV| #[trigger] bo(d) ==> bo2(d) || build_lists(env, t, is_target, st, d),
    ensures
        good(env, t, is_target, from, st, ro2, bo2),
{
    lemma_more(
        env,
        t,
        is_target,
        from,
        st,
        repo_deps(st, ro),
        build_deps(env, t, is_target, st, bo),
        repo_deps(st, ro2),
        build_deps(env, t, is_target, st, bo2),
    );
}

/// A reason for a sync package holds in a later state.
proof fn lemma_install_right<'a>(
    env: Env<'a>,
    t: TargetsV<'a>,
    repo: spec_fn(DependV) -> bool,
    built: spec_fn(DependV) -> bool,
    repo2: spec_fn(DependV) -> bool,
    built2: spec_fn(DependV) -> bool,
    p: &'a AlpmPkg,
)
    requires
        install_right(env, t, repo, built, p),
        forall|d: DependV| #[trigger] repo(d) ==> repo2(d),
        forall|d: DependV| #[trigger] built(d) ==> built2(d),
    ensures
        install_right(env, t, repo2, built2, p),
{
    if exists|d: DependV| #[trigger] sync_why(env, d, *p) && (repo(d) || built(d)) {
        let d = choose|d: DependV| #[trigger] sync_why(env, d, *p) && (repo(d) || built(d));
        assert(sync_why(env, d, *p) && (repo2(d) || built2(d)));
    }
}

/// One more sync package.
proof fn lemma_add_install<'a>(
    env: Env<'a>,
    t: TargetsV<'a>,
    is_target: bool,
    from: int,
    st: St<'a>,
    p: RepoPackage<'a>,
    ro: spec_fn(DependV) -> bool,
    bo: spec_fn(DependV) -> bool,
)
    requires
        good(
            env,
            t,
            is_target,
            from,
            st,
            (|d: DependV| ro(d) || repo_lists(*p.pkg, d)),
            bo,
        ),
        install_right(env, t, repo_deps(st, ro), build_deps(env, t, is_target, st, bo), p.pkg),
    ensures
        good(env, t, is_target, from, st.add_install(p), ro, bo),
        keeps(env, t, is_target, st, st.add_install(p)),
{
    let r = st.add_install(p);
    let ro2 = |d: DependV| ro(d) || repo_lists(*p.pkg, d);
    let n = st.install.len() as int;
    assert(r.install[n] == p);
    assert forall|d: DependV| #[trigger] install_lists(st, d) implies install_lists(r, d) by {
        let i = choose|i: int|
            0 <= i < st.install.len() && repo_lists(*(#[trigger] st.install[i]).pkg, d);
        assert(r.install[i] == st.install[i]);
    }
    assert forall|d: DependV| #[trigger] build_lists(env, t, is_target, st, d) implies build_lists(
        env,
        t,
        is_target,
        r,
        d,
    ) by {
        assert(r.build == st.build);
    }
    let repo = repo_deps(r, ro);
    let built = build_deps(env, t, is_target, r, bo);
    assert forall|d: DependV| #[trigger] repo_deps(st, ro2)(d) implies repo(d) by {
        if repo_lists(*p.pkg, d) {
            assert(repo_lists(*r.install[n].pkg, d));
        }
    }
    lemma_more(
        env,
        t,
        is_target,
        from,
        st,
        repo_deps(st, ro2),
        build_deps(env, t, is_target, st, bo),
        repo,
        built,
    );
    lemma_install_right(
        env,
        t,
        repo_deps(st, ro),
        build_deps(env, t, is_target, st, bo),
        repo,
        built,
        p.pkg,
    );
    assert forall|i: int| 0 <= i < r.install.len() implies install_right(
        env,
        t,
        repo,
        built,
        (#[trigger] r.install[i]).pkg,
    ) by {
        if i < n {
            assert(r.install[i] == st.install[i]);
        }
    }
}

/// One more missing dependency.
proof fn lemma_miss<'a>(
    env: Env<'a>,
    t: TargetsV<'a>,
    is_target: bool,
    from: int,
    st: St<'a>,
    text: Seq<char>,
    ro: spec_fn(DependV) -> bool,
    bo: spec_fn(DependV) -> bool,
)
    requires
        good(env, t, is_target, from, st, ro, bo),
        missing_right(
            env,
            t,
            is_target,
            repo_deps(st, ro),
            build_deps(env, t, is_target, st, bo),
            text,
        ),
    ensures
        good(env, t, is_target, from, st.miss(text), ro, bo),
        keeps(env, t, is_target, st, st.miss(text)),
{
    let r = st.miss(text);
    let mid = St { missing: st.missing, ..r };
    lemma_aside(env, t, is_target, from, st, mid, ro, bo);
    assert(mid.install == r.install && mid.build == r.build);
    assert forall|d: DependV| #[trigger] install_lists(st, d) == install_lists(r, d) by {}
    assert forall|d: DependV| #[trigger] build_lists(env, t, is_target, st, d) == build_lists(
        env,
        t,
        is_target,
        r,
        d,
    ) by {}
    assert(repo_deps(r, ro) =~= repo_deps(st, ro));
    assert(build_deps(env, t, is_target, r, bo) =~= build_deps(env, t, is_target, st, bo));
    assert forall|n: int| from <= n < r.missing.len() implies missing_right(
        env,
        t,
        is_target,
        repo_deps(r, ro),
        build_deps(env, t, is_target, r, bo),
        (#[trigger] r.missing[n]).dep,
    ) by {
        if n < st.missing.len() {
            assert(r.missing[n] == st.missing[n]);
        }
    }
}

/// Installing a repo package.
proof fn lemma_repo_pkg<'a>(
    env: Env<'a>,
    t: TargetsV<'a>,
    is_target: bool,
    from: int,
    depth: nat,
    st: St<'a>,
    pkg: &'a AlpmPkg,
    target: bool,
    make: bool,
    ro: spec_fn(DependV) -> bool,
    bo: spec_fn(DependV) -> bool,
)
    requires
        good(env, t, is_target, from, st, ro, bo),
        install_right(env, t, repo_deps(st, ro), build_deps(env, t, is_target, st, bo), pkg),
    ensures
        good(
            env,
            t,
            is_target,
            from,
            tree::repo_pkg(env, depth, st, pkg, target, make),
            ro,
            bo,
        ),
        keeps(env, t, is_target, st, tree::repo_pkg(env, depth, st, pkg, target, make)),
    decreases depth, 2nat, 0nat,
{
    if !st.seen.contains(pkg.name@) {
        let s1 = St { seen: st.seen.insert(pkg.name@), ..st };
        let deps = depend::deps(pkg.depends@);
        let s2 = if env.flags.has(Flags::NO_DEPS) {
            s1
        } else {
            tree::repo_deps(env, depth, s1, deps)
        };
        let ro2 = |d: DependV| ro(d) || repo_lists(*pkg, d);
        lemma_aside(env, t, is_target, from, st, s1, ro, bo);
        lemma_open(env, t, is_target, from, s1, ro, bo, ro2, bo);
        if !env.flags.has(Flags::NO_DEPS) {
            assert forall|i: int| 0 <= i < deps.len() implies ro2(#[trigger] deps[i]) by {
                assert(pkg.depends@[i]@ == deps[i]);
            }
            lemma_repo_deps(env, t, is_target, from, depth, s1, deps, ro2, bo);
        }
        assert(keeps(env, t, is_target, st, s2));
        lemma_install_right(
            env,
            t,
            repo_deps(st, ro),
            build_deps(env, t, is_target, st, bo),
            repo_deps(s2, ro),
            build_deps(env, t, is_target, s2, bo),
            pkg,
        );
        lemma_add_install(env, t, is_target, from, s2, Package { pkg, make, target }, ro, bo);
    }
}

/// Installing what the dependencies of a repo package need.
proof fn lemma_repo_deps<'a>(
    env: Env<'a>,
    t: TargetsV<'a>,
    is_target: bool,
    from: int,
    depth: nat,
    st: St<'a>,
    deps: Seq<DependV>,
    ro: spec_fn(DependV) -> bool,
    bo: spec_fn(DependV) -> bool,
)
    requires
        good(env, t, is_target, from, st, ro, bo),
        forall|i: int| 0 <= i < deps.len() ==> ro(#[trigger] deps[i]),
    ensures
        good(env, t, is_target, from, tree::repo_deps(env, depth, st, deps), ro, bo),
        keeps(env, t, is_target, st, tree::repo_deps(env, depth, st, deps)),
    decreases depth, 1nat, deps.len(),
{
    if deps.len() > 0 {
        let dep = deps[0];
        let s = tree::repo_dep(env, depth, st, dep);
        assert(ro(dep));
        if env.sat_install(st.install, dep) || env.sat_local(dep) || env.assumed(dep) {
        } else if let Some(p) = env.repo_sat(dep.text) {
            if depth > 0 {
                let s1 = st.push(p.name@, dep.text);
                let s2 = tree::repo_pkg(env, (depth - 1) as nat, s1, &p, false, true);
                lemma_aside(env, t, is_target, from, st, s1, ro, bo);
                assert(sync_why(env, dep, p) && repo_deps(s1, ro)(dep));
                lemma_repo_pkg(
                    env,
                    t,
                    is_target,
                    from,
                    (depth - 1) as nat,
                    s1,
                    &p,
                    false,
                    true,
                    ro,
                    bo,
                );
                lemma_aside(env, t, is_target, from, s2, s2.pop(), ro, bo);
            }
        } else {
            assert(sync_lacks(env, dep, dep.text) && repo_deps(st, ro)(dep));
            lemma_miss(env, t, is_target, from, st, dep.text, ro, bo);
        }
        assert forall|i: int| 0 <= i < deps.drop_first().len() implies ro(
            #[trigger] deps.drop_first()[i],
        ) by {
            assert(deps.drop_first()[i] == deps[i + 1]);
        }
        lemma_repo_deps(env, t, is_target, from, depth, s, deps.drop_first(), ro, bo);
    }
}

/// One more AUR package.
proof fn lemma_add_aur<'a>(
    env: Env<'a>,
    t: TargetsV<'a>,
    is_target: bool,
    from: int,
    st: St<'a>,
    p: AurPackage,
    ro: spec_fn(DependV) -> bool,
    bo: spec_fn(DependV) -> bool,
)
    requires
        good(
            env,
            t,
            is_target,
            from,
            st,
            ro,
            (|d: DependV| bo(d) || who_lists(env, AurOrPkgbuild::Aur(&*p.pkg), d)),
        ),
        aur_right(env, t, is_target, build_deps(env, t, is_target, st, bo), p.pkg),
    ensures
        good(env, t, is_target, from, st.add_aur(p), ro, bo),
        keeps(env, t, is_target, st, st.add_aur(p)),
{
    let r = st.add_aur(p);
    let bo2 = |d: DependV| bo(d) || who_lists(env, AurOrPkgbuild::Aur(&*p.pkg), d);
    let n = r.build.len() - 1;
    let last = r.build[n]->Aur_pkgs;
    assert(last[last.len() - 1] == p);
    assert forall|b: int, d: DependV|
        0 <= b < st.build.len() && #[trigger] base_lists(env, st.build[b], d) implies base_lists(
        env,
        r.build[b],
        d,
    ) by {
        if b == n {
            let old = st.build[b]->Aur_pkgs;
            let k = choose|k: int|
                0 <= k < old.len() && who_lists(
                    env,
                    AurOrPkgbuild::Aur(&*(#[trigger] old[k]).pkg),
                    d,
                );
            assert(last[k] == old[k]);
        } else {
            assert(r.build[b] == st.build[b]);
        }
    }
    assert forall|d: DependV| #[trigger] build_lists(env, t, is_target, st, d) implies build_lists(
        env,
        t,
        is_target,
        r,
        d,
    ) by {
        if exists|b: int| 0 <= b < st.build.len() && base_lists(env, #[trigger] st.build[b], d) {
            let b = choose|b: int|
                0 <= b < st.build.len() && base_lists(env, #[trigger] st.build[b], d);
            assert(base_lists(env, r.build[b], d));
        }
    }
    assert forall|d: DependV| #[trigger] install_lists(st, d) implies install_lists(r, d) by {
        assert(r.install == st.install);
    }
    let repo = repo_deps(r, ro);
    let built = build_deps(env, t, is_target, r, bo);
    assert forall|d: DependV| #[trigger] build_deps(env, t, is_target, st, bo2)(d) implies built(d) by {
        if who_lists(env, AurOrPkgbuild::Aur(&*p.pkg), d) {
            assert(who_lists(env, AurOrPkgbuild::Aur(&*last[last.len() - 1].pkg), d));
            assert(base_lists(env, r.build[n], d));
        }
    }
    lemma_more(
        env,
        t,
        is_target,
        from,
        st,
        repo_deps(st, ro),
        build_deps(env, t, is_target, st, bo2),
        repo,
        built,
    );
    assert(aur_right(env, t, is_target, built, p.pkg)) by {
        let before = build_deps(env, t, is_target, st, bo);
        if exists|d: DependV| #[trigger] aur_why(env, t, d, p.pkg) && before(d) {
            let d = choose|d: DependV| #[trigger] aur_why(env, t, d, p.pkg) && before(d);
            assert(aur_why(env, t, d, p.pkg) && built(d));
        }
    }
    assert forall|b: int| 0 <= b < r.build.len() implies base_right(
        env,
        t,
        is_target,
        built,
        #[trigger] r.build[b],
    ) by {
        if b == n {
            assert forall|k: int| 0 <= k < last.len() implies aur_right(
                env,
                t,
                is_target,
                built,
                (#[trigger] last[k]).pkg,
            ) by {
                if k < last.len() - 1 {
                    let old = st.build[b]->Aur_pkgs;
                    assert(base_right(env, t, is_target, built, st.build[b]));
                    assert(old[k] == last[k]);
                }
            }
        } else {
            assert(r.build[b] == st.build[b]);
        }
    }
}

/// A package of a pkgbuild repo comes with the name of the repo.
proof fn lemma_named<'a>(env: Env<'a>, repo: Option<Seq<char>>, dep: DependV)
    ensures
        env.pkgbuild_dep(repo, dep) matches Some(f) ==> in_named_repo(env, f.0, f.1),
{
    found::law_pkgbuild_dep(env, env.repos, repo, dep);
    if let Some((name, s, p)) = env.pkgbuild_dep(repo, dep) {
        let r = choose|r: int|
            0 <= r < env.repos.len() && (#[trigger] env.repos[r]).name@ == name && found::first_met(
                env,
                env.repos[r],
                s,
                p,
                dep,
            );
        let pkgs = env.repos[r].pkgs@;
        let k = choose|k: int| 0 <= k < pkgs.len() && (#[trigger] pkgs[k]) == s;
        assert(env.repos[r].pkgs@.contains(s));
    }
}

/// One more package of a pkgbuild repo.
proof fn lemma_add_pkgbuild<'a>(
    env: Env<'a>,
    t: TargetsV<'a>,
    is_target: bool,
    from: int,
    st: St<'a>,
    repo_name: Seq<char>,
    s: &'a Srcinfo,
    p: Pkgbuild<'a>,
    ro: spec_fn(DependV) -> bool,
    bo: spec_fn(DependV) -> bool,
)
    requires
        choice::in_repos(env.repos, s),
        in_named_repo(env, repo_name, s),
        good(
            env,
            t,
            is_target,
            from,
            st,
            ro,
            (|d: DependV| bo(d) || who_lists(env, AurOrPkgbuild::Pkgbuild(s, p.pkg), d)),
        ),
        pkgbuild_right(env, t, build_deps(env, t, is_target, st, bo), p.pkg),
    ensures
        good(env, t, is_target, from, st.add_pkgbuild(repo_name, s, p), ro, bo),
        keeps(env, t, is_target, st, st.add_pkgbuild(repo_name, s, p)),
{
    let r = st.add_pkgbuild(repo_name, s, p);
    let bo2 = |d: DependV| bo(d) || who_lists(env, AurOrPkgbuild::Pkgbuild(s, p.pkg), d);
    let n = r.build.len() - 1;
    let last = r.build[n]->Pkgbuild_pkgs;
    let base = s.base.pkgbase@;
    assert(last[last.len() - 1] == p);
    assert(r.build[n]->srcinfo.base.pkgbase@ == base);
    assert forall|b: int, d: DependV|
        0 <= b < st.build.len() && #[trigger] base_lists(env, st.build[b], d) implies base_lists(
        env,
        r.build[b],
        d,
    ) by {
        if b == n {
            let old = st.build[b]->Pkgbuild_pkgs;
            let k = choose|k: int|
                0 <= k < old.len() && pkgbuild_lists(
                    env,
                    (#[trigger] old[k]).pkg,
                    st.build[b]->srcinfo.base.pkgbase@,
                    d,
                );
            assert(last[k] == old[k]);
        } else {
            assert(r.build[b] == st.build[b]);
        }
    }
    assert forall|d: DependV| #[trigger] build_lists(env, t, is_target, st, d) implies build_lists(
        env,
        t,
        is_target,
        r,
        d,
    ) by {
        if exists|b: int| 0 <= b < st.build.len() && base_lists(env, #[trigger] st.build[b], d) {
            let b = choose|b: int|
                0 <= b < st.build.len() && base_lists(env, #[trigger] st.build[b], d);
            assert(base_lists(env, r.build[b], d));
        }
    }
    assert forall|d: DependV| #[trigger] install_lists(st, d) implies install_lists(r, d) by {
        assert(r.install == st.install);
    }
    let repo = repo_deps(r, ro);
    let built = build_deps(env, t, is_target, r, bo);
    assert forall|d: DependV| #[trigger] build_deps(env, t, is_target, st, bo2)(d) implies built(d) by {
        if who_lists(env, AurOrPkgbuild::Pkgbuild(s, p.pkg), d) {
            assert(pkgbuild_lists(env, last[last.len() - 1].pkg, base, d));
            assert(base_lists(env, r.build[n], d));
        }
    }
    lemma_more(
        env,
        t,
        is_target,
        from,
        st,
        repo_deps(st, ro),
        build_deps(env, t, is_target, st, bo2),
        repo,
        built,
    );
    assert(pkgbuild_right(env, t, built, p.pkg)) by {
        let before = build_deps(env, t, is_target, st, bo);
        if exists|d: DependV| #[trigger] pkgbuild_why(env, t, d, p.pkg) && before(d) {
            let d = choose|d: DependV| #[trigger] pkgbuild_why(env, t, d, p.pkg) && before(d);
            assert(pkgbuild_why(env, t, d, p.pkg) && built(d));
        }
    }
    assert forall|b: int| 0 <= b < r.build.len() implies base_right(
        env,
        t,
        is_target,
        built,
        #[trigger] r.build[b],
    ) by {
        if b == n {
            assert forall|k: int| 0 <= k < last.len() implies pkgbuild_right(
                env,
                t,
                built,
                (#[trigger] last[k]).pkg,
            ) by {
                if k < last.len() - 1 {
                    let old = st.build[b]->Pkgbuild_pkgs;
                    assert(base_right(env, t, is_target, built, st.build[b]));
                    assert(old[k] == last[k]);
                }
            }
        } else {
            assert(r.build[b] == st.build[b]);
        }
    }
}

/// Building what a package depends on.
proof fn lemma_pkg_deps<'a>(
    env: Env<'a>,
    t: TargetsV<'a>,
    is_target: bool,
    from: int,
    depth: nat,
    st: St<'a>,
    who: AurOrPkgbuild<'_>,
    make: bool,
    ro: spec_fn(DependV) -> bool,
    bo: spec_fn(DependV) -> bool,
)
    requires
        good(env, t, is_target, from, st, ro, bo),
        forall|d: DependV| #[trigger] who_lists(env, who, d) ==> bo(d),
    ensures
        good(
            env,
            t,
            is_target,
            from,
            aur_tree::pkg_deps(env, depth, st, t.aur, who, make),
            ro,
            bo,
        ),
        keeps(
            env,
            t,
            is_target,
            st,
            aur_tree::pkg_deps(env, depth, st, t.aur, who, make),
        ),
    decreases depth, 2nat, 0nat,
{
    if !env.flags.has(Flags::NO_DEPS) {
        let needs = env.needs(who);
        assert forall|i: int| 0 <= i < needs.len() implies bo(
            (env.m.depend)(#[trigger] needs[i]),
        ) by {
            assert(who_lists(env, who, (env.m.depend)(env.needs(who)[i])));
        }
        lemma_aur_deps(
            env,
            t,
            is_target,
            from,
            depth,
            st,
            needs,
            env.makes(who, make),
            ro,
            bo,
        );
    }
}

/// Building what each of the dependencies needs.
proof fn lemma_aur_deps<'a>(
    env: Env<'a>,
    t: TargetsV<'a>,
    is_target: bool,
    from: int,
    depth: nat,
    st: St<'a>,
    needs: Seq<Seq<char>>,
    make: spec_fn(Seq<char>) -> bool,
    ro: spec_fn(DependV) -> bool,
    bo: spec_fn(DependV) -> bool,
)
    requires
        good(env, t, is_target, from, st, ro, bo),
        forall|i: int| 0 <= i < needs.len() ==> bo((env.m.depend)(#[trigger] needs[i])),
    ensures
        good(
            env,
            t,
            is_target,
            from,
            aur_tree::aur_deps(env, depth, st, t.aur, needs, make),
            ro,
            bo,
        ),
        keeps(
            env,
            t,
            is_target,
            st,
            aur_tree::aur_deps(env, depth, st, t.aur, needs, make),
        ),
    decreases depth, 1nat, needs.len(),
{
    if needs.len() > 0 {
        let s = aur_tree::aur_dep(env, depth, st, t.aur, needs[0], make(needs[0]));
        let rest = needs.drop_first();
        assert(bo((env.m.depend)(needs[0])));
        lemma_aur_dep(env, t, is_target, from, depth, st, needs[0], make(needs[0]), ro, bo);
        assert forall|i: int| 0 <= i < rest.len() implies bo((env.m.depend)(#[trigger] rest[i])) by {
            assert(rest[i] == needs[i + 1]);
        }
        lemma_aur_deps(env, t, is_target, from, depth, s, rest, make, ro, bo);
    }
}

/// Building what one dependency needs.
proof fn lemma_aur_dep<'a>(
    env: Env<'a>,
    t: TargetsV<'a>,
    is_target: bool,
    from: int,
    depth: nat,
    st: St<'a>,
    need: Seq<char>,
    make: bool,
    ro: spec_fn(DependV) -> bool,
    bo: spec_fn(DependV) -> bool,
)
    requires
        good(env, t, is_target, from, st, ro, bo),
        bo((env.m.depend)(need)),
    ensures
        good(
            env,
            t,
            is_target,
            from,
            aur_tree::aur_dep(env, depth, st, t.aur, need, make),
            ro,
            bo,
        ),
        keeps(env, t, is_target, st, aur_tree::aur_dep(env, depth, st, t.aur, need, make)),
    decreases depth, 0nat, 0nat,
{
    let dep = (env.m.depend)(need);
    let targs = t.aur;
    if env.assumed(dep) || env.sat_build(st.build, dep) || st.resolved.contains(dep.text)
        || env.sat_install(st.install, dep) {
    } else {
        let s1 = st.resolve(dep.text);
        let is_targ = env.is_aur_targ(st.seen_target, targs, dep);
        lemma_aside(env, t, is_target, from, st, s1, ro, bo);
        if !is_targ && !env.flags.has(Flags::RESOLVE_SATISFIED_PKGBUILDS) && env.sat_local(dep) {
        } else if !is_targ && env.repo_sat(dep.text) is Some {
            let p = env.repo_sat(dep.text)->0;
            if !env.sat_local(dep) {
                let s2 = s1.push(p.name@, dep.text);
                let d = tree::repo_depth(env);
                let s3 = tree::repo_pkg(env, d, s2, &p, false, true);
                lemma_aside(env, t, is_target, from, s1, s2, ro, bo);
                assert(sync_why(env, dep, p) && build_deps(env, t, is_target, s2, bo)(dep));
                lemma_repo_pkg(env, t, is_target, from, d, s2, &p, false, true, ro, bo);
                lemma_aside(env, t, is_target, from, s3, s3.pop(), ro, bo);
            }
        } else if env.skip_aur(dep, is_targ) {
        } else {
            if is_targ {
                let q = env.find_aur(dep)->0;
                let i = choose|i: int|
                    0 <= i < targs.len() && !st.seen_target.contains(#[trigger] targs[i])
                        && satisfies::aur_ok(
                        env.m,
                        *q,
                        (env.m.depend)(targs[i]),
                        env.nover(),
                    );
                assert(q.which(
                    env.m,
                    (env.m.depend)(t.aur[i]),
                    env.flags.has(Flags::NO_DEP_VERSION),
                ) is Some);
                assert(is_targeted(env, t, dep));
            }
            assert(build_why(env, t, dep));
            match env.pkgbuild_dep(None, dep) {
                Some((repo, srcinfo, pkg)) => if depth > 0 {
                    let e = (depth - 1) as nat;
                    let who = AurOrPkgbuild::Pkgbuild(srcinfo, pkg);
                    let s2 = s1.push(pkg.pkgname@, dep.text);
                    let s3 = aur_tree::pkg_deps(env, e, s2, targs, who, true);
                    let s4 = s3.pop();
                    let bo2 = |d: DependV| bo(d) || who_lists(env, who, d);
                    let k = aur_tree::lemma_pkgbuild_dep(env, env.repos, None, dep);
                    assert(choice::in_repos(env.repos, srcinfo));
                    lemma_named(env, None, dep);
                    lemma_aside(env, t, is_target, from, s1, s2, ro, bo);
                    lemma_open(env, t, is_target, from, s2, ro, bo, ro, bo2);
                    lemma_pkg_deps(env, t, is_target, from, e, s2, who, true, ro, bo2);
                    lemma_aside(env, t, is_target, from, s3, s4, ro, bo2);
                    assert(pkgbuild_why(env, t, dep, pkg) && build_deps(env, t, is_target, s4, bo)(
                        dep,
                    ));
                    lemma_add_pkgbuild(
                        env,
                        t,
                        is_target,
                        from,
                        s4,
                        repo,
                        srcinfo,
                        Package { pkg, make, target: false },
                        ro,
                        bo,
                    );
                },
                None => match env.select_aur(dep, false) {
                    Some(p) => if depth > 0 {
                        let e = (depth - 1) as nat;
                        let who = AurOrPkgbuild::Aur(&*p);
                        let s2 = s1.push(p.name@, dep.text);
                        let s3 = aur_tree::pkg_deps(env, e, s2, targs, who, true);
                        let s4 = s3.pop();
                        let bo2 = |d: DependV| bo(d) || who_lists(env, who, d);
                        lemma_aside(env, t, is_target, from, s1, s2, ro, bo);
                        lemma_open(env, t, is_target, from, s2, ro, bo, ro, bo2);
                        lemma_pkg_deps(env, t, is_target, from, e, s2, who, true, ro, bo2);
                        lemma_aside(env, t, is_target, from, s3, s4, ro, bo2);
                        assert(aur_why(env, t, dep, p) && build_deps(env, t, is_target, s4, bo)(
                            dep,
                        ));
                        lemma_add_aur(
                            env,
                            t,
                            is_target,
                            from,
                            s4,
                            Package { pkg: p, make, target: false },
                            ro,
                            bo,
                        );
                    },
                    None => {
                        assert(build_lacks(env, t, dep, dep.text) && build_deps(
                            env,
                            t,
                            is_target,
                            s1,
                            bo,
                        )(dep));
                        lemma_miss(env, t, is_target, from, s1, dep.text, ro, bo);
                    },
                },
            }
        }
    }
}

/// No dependency.
spec fn no_dep() -> spec_fn(DependV) -> bool {
    |d: DependV| false
}

/// There is a reason for everything, by what is installed and built.
spec fn all_good<'a>(
    env: Env<'a>,
    t: TargetsV<'a>,
    is_target: bool,
    from: int,
    st: St<'a>,
) -> bool {
    good(env, t, is_target, from, st, no_dep(), no_dep())
}

/// Packages with the name are asked for.
proof fn lemma_marked<'a>(
    env: Env<'a>,
    t: TargetsV<'a>,
    is_target: bool,
    from: int,
    st: St<'a>,
    name: Seq<char>,
    make: bool,
    target: bool,
)
    requires
        all_good(env, t, is_target, from, st),
    ensures
        all_good(env, t, is_target, from, st.mark_install(name, make, target)),
        all_good(env, t, is_target, from, st.mark_build(name, make, target)),
{
    let r = st.mark_install(name, make, target);
    let s = st.mark_build(name, make, target);
    lemma_same_base(st.build);
    lemma_same(env, t, is_target, from, st, r, no_dep(), no_dep());
    assert forall|b: int| 0 <= b < st.build.len() implies laws::same_pkgs(
        st.build[b],
        #[trigger] s.build[b],
    ) by {
        match st.build[b] {
            BaseV::Aur { pkgs, .. } => {},
            BaseV::Pkgbuild { pkgs, .. } => {},
        }
    }
    lemma_same(env, t, is_target, from, st, s, no_dep(), no_dep());
}

/// A target from a sync database.
proof fn lemma_repo_target<'a>(
    env: Env<'a>,
    t: TargetsV<'a>,
    is_target: bool,
    from: int,
    st: St<'a>,
    i: int,
    make: Seq<Seq<char>>,
)
    requires
        all_good(env, t, is_target, from, st),
        0 <= i < t.repo.len(),
    ensures
        all_good(
            env,
            t,
            is_target,
            from,
            targets::repo_target(env, st, t.repo[i].0, t.repo[i].1, make, is_target),
        ),
{
    let (targ, pkg) = t.repo[i];
    let is_make = make.contains(targ.pkg);
    if targets::repo_met(env, targ, is_target) {
    } else if let Some(v) = targets::repo_unneeded(env, targ, *pkg) {
        lemma_aside(
            env,
            t,
            is_target,
            from,
            st,
            st.unneed(targ.text(), v),
            no_dep(),
            no_dep(),
        );
    } else {
        let s1 = st.push(pkg.name@, targ.pkg);
        let d = tree::repo_depth(env);
        let s2 = tree::repo_pkg(env, d, s1, pkg, is_target, is_make);
        lemma_aside(env, t, is_target, from, st, s1, no_dep(), no_dep());
        assert(t.repo[i].1 == pkg);
        lemma_repo_pkg(
            env,
            t,
            is_target,
            from,
            d,
            s1,
            pkg,
            is_target,
            is_make,
            no_dep(),
            no_dep(),
        );
        lemma_aside(env, t, is_target, from, s2, s2.pop(), no_dep(), no_dep());
        lemma_marked(env, t, is_target, from, s2.pop(), pkg.name@, is_make, is_target);
    }
}

/// What a package that is picked for a target needs.
proof fn lemma_target_deps<'a>(
    env: Env<'a>,
    t: TargetsV<'a>,
    is_target: bool,
    from: int,
    st: St<'a>,
    who: AurOrPkgbuild<'_>,
    make: bool,
    name: Seq<char>,
    targ: Seq<char>,
) -> (s: St<'a>)
    requires
        all_good(env, t, is_target, from, st),
        forall|d: DependV, s: St<'a>| #[trigger]
            who_lists(env, who, d) ==> #[trigger] build_lists(env, t, is_target, s, d),
    ensures
        s == aur_tree::pkg_deps(env, env.depth(), st.push(name, targ), t.aur, who, make).pop(),
        good(
            env,
            t,
            is_target,
            from,
            s,
            no_dep(),
            (|d: DependV| no_dep()(d) || who_lists(env, who, d)),
        ),
        all_good(env, t, is_target, from, s),
{
    let s1 = st.push(name, targ);
    let s2 = aur_tree::pkg_deps(env, env.depth(), s1, t.aur, who, make);
    let s = s2.pop();
    let bo = |d: DependV| no_dep()(d) || who_lists(env, who, d);
    lemma_aside(env, t, is_target, from, st, s1, no_dep(), no_dep());
    lemma_open(env, t, is_target, from, s1, no_dep(), no_dep(), no_dep(), bo);
    lemma_pkg_deps(env, t, is_target, from, env.depth(), s1, who, make, no_dep(), bo);
    lemma_aside(env, t, is_target, from, s2, s, no_dep(), bo);
    lemma_open(env, t, is_target, from, s, no_dep(), bo, no_dep(), no_dep());
    s
}

/// A target from a pkgbuild repo.
proof fn lemma_pkgbuild_target<'a>(
    env: Env<'a>,
    t: TargetsV<'a>,
    is_target: bool,
    from: int,
    st: St<'a>,
    i: int,
    make: Seq<Seq<char>>,
)
    requires
        all_good(env, t, is_target, from, st),
        0 <= i < t.pkgbuild.len(),
    ensures
        all_good(
            env,
            t,
            is_target,
            from,
            targets::pkgbuild_target(env, st, t.pkgbuild[i], make, is_target, t.aur),
        ),
{
    let targ = t.pkgbuild[i];
    let dep = (env.m.depend)(targ.pkg);
    let is_make = make.contains(targ.pkg);
    if !env.skip_aur(dep, is_target) {
        match env.pkgbuild_dep(targ.repo, dep) {
            None => {
                assert(env.pkgbuild_dep(
                    t.pkgbuild[i].repo,
                    (env.m.depend)(t.pkgbuild[i].pkg),
                ) is None);
                assert(target_lacks(env, t, is_target, dep.text));
                lemma_miss(env, t, is_target, from, st, dep.text, no_dep(), no_dep());
            },
            Some((repo, srcinfo, pkg)) => match env.unneeded(
                targ.pkg,
                pkg.pkgname@,
                srcinfo.full_version(),
                is_target,
            ) {
                Some(v) => {
                    let r = st.unneed(targ.text(), v);
                    lemma_aside(env, t, is_target, from, st, r, no_dep(), no_dep());
                },
                None => {
                    let who = AurOrPkgbuild::Pkgbuild(srcinfo, pkg);
                    let k = aur_tree::lemma_pkgbuild_dep(env, env.repos, targ.repo, dep);
                    assert(choice::in_repos(env.repos, srcinfo));
                    lemma_named(env, targ.repo, dep);
                    assert forall|d: DependV, s: St<'a>| #[trigger]
                        who_lists(env, who, d) implies #[trigger] build_lists(
                        env,
                        t,
                        is_target,
                        s,
                        d,
                    ) by {
                        assert(env.pkgbuild_dep(
                            t.pkgbuild[i].repo,
                            (env.m.depend)(t.pkgbuild[i].pkg),
                        ) is Some);
                    }
                    let s = lemma_target_deps(
                        env,
                        t,
                        is_target,
                        from,
                        st,
                        who,
                        is_make,
                        pkg.pkgname@,
                        targ.pkg,
                    );
                    if targets::builds(s.build, pkg.pkgname@) {
                        lemma_marked(
                            env,
                            t,
                            is_target,
                            from,
                            s,
                            pkg.pkgname@,
                            is_make,
                            is_target,
                        );
                    } else {
                        assert(t.pkgbuild[i] == targ);
                        lemma_add_pkgbuild(
                            env,
                            t,
                            is_target,
                            from,
                            s,
                            repo,
                            srcinfo,
                            Package { pkg, make: is_make, target: is_target },
                            no_dep(),
                            no_dep(),
                        );
                    }
                },
            },
        }
    }
}

/// A target from the AUR.
proof fn lemma_aur_target<'a>(
    env: Env<'a>,
    t: TargetsV<'a>,
    is_target: bool,
    from: int,
    st: St<'a>,
    i: int,
    make: Seq<Seq<char>>,
)
    requires
        all_good(env, t, is_target, from, st),
        0 <= i < t.aur.len(),
    ensures
        all_good(
            env,
            t,
            is_target,
            from,
            targets::aur_target(env, st, t.aur[i], make, is_target, t.aur),
        ),
{
    let targ = t.aur[i];
    let dep = (env.m.depend)(targ);
    let is_make = make.contains(targ);
    let s0 = St { seen_target: st.seen_target.insert(targ), ..st };
    lemma_aside(env, t, is_target, from, st, s0, no_dep(), no_dep());
    if !env.skip_aur(dep, is_target) {
        match env.select_aur(dep, is_target) {
            None => {
                assert(env.select_aur((env.m.depend)(t.aur[i]), is_target) is None);
                assert(target_lacks(env, t, is_target, dep.text));
                lemma_miss(env, t, is_target, from, s0, dep.text, no_dep(), no_dep());
            },
            Some(p) => match env.unneeded(targ, p.name@, p.version@, is_target) {
                Some(v) => {
                    let r = s0.unneed(targ, v);
                    lemma_aside(env, t, is_target, from, s0, r, no_dep(), no_dep());
                },
                None => {
                    let who = AurOrPkgbuild::Aur(&*p);
                    assert forall|d: DependV, s: St<'a>| #[trigger]
                        who_lists(env, who, d) implies #[trigger] build_lists(
                        env,
                        t,
                        is_target,
                        s,
                        d,
                    ) by {
                        assert(env.select_aur((env.m.depend)(t.aur[i]), is_target) is Some);
                    }
                    let s = lemma_target_deps(
                        env,
                        t,
                        is_target,
                        from,
                        s0,
                        who,
                        is_make,
                        p.name@,
                        targ,
                    );
                    if targets::builds(s.build, p.name@) {
                        lemma_marked(env, t, is_target, from, s, p.name@, is_make, is_target);
                    } else {
                        assert(t.aur[i] == targ);
                        lemma_add_aur(
                            env,
                            t,
                            is_target,
                            from,
                            s,
                            Package { pkg: p, make: is_make, target: is_target },
                            no_dep(),
                            no_dep(),
                        );
                    }
                },
            },
        }
    }
}

/// The targets from a place on.
proof fn lemma_repo_targets<'a>(
    env: Env<'a>,
    t: TargetsV<'a>,
    is_target: bool,
    from: int,
    st: St<'a>,
    i: int,
    make: Seq<Seq<char>>,
)
    requires
        all_good(env, t, is_target, from, st),
        0 <= i <= t.repo.len(),
    ensures
        all_good(
            env,
            t,
            is_target,
            from,
            targets::repo_targets(env, st, t.repo.skip(i), make, is_target),
        ),
    decreases t.repo.len() - i,
{
    if i < t.repo.len() {
        assert(t.repo.skip(i)[0] == t.repo[i]);
        assert(t.repo.skip(i).drop_first() =~= t.repo.skip(i + 1));
        let s = targets::repo_target(env, st, t.repo[i].0, t.repo[i].1, make, is_target);
        lemma_repo_target(env, t, is_target, from, st, i, make);
        lemma_repo_targets(env, t, is_target, from, s, i + 1, make);
    }
}

/// The targets from a place on.
proof fn lemma_pkgbuild_targets<'a>(
    env: Env<'a>,
    t: TargetsV<'a>,
    is_target: bool,
    from: int,
    st: St<'a>,
    i: int,
    make: Seq<Seq<char>>,
)
    requires
        all_good(env, t, is_target, from, st),
        0 <= i <= t.pkgbuild.len(),
    ensures
        all_good(
            env,
            t,
            is_target,
            from,
            targets::pkgbuild_targets(env, st, t.pkgbuild.skip(i), make, is_target, t.aur),
        ),
    decreases t.pkgbuild.len() - i,
{
    if i < t.pkgbuild.len() {
        assert(t.pkgbuild.skip(i)[0] == t.pkgbuild[i]);
        assert(t.pkgbuild.skip(i).drop_first() =~= t.pkgbuild.skip(i + 1));
        let s = targets::pkgbuild_target(env, st, t.pkgbuild[i], make, is_target, t.aur);
        lemma_pkgbuild_target(env, t, is_target, from, st, i, make);
        lemma_pkgbuild_targets(env, t, is_target, from, s, i + 1, make);
    }
}

/// The targets from a place on.
proof fn lemma_aur_targets<'a>(
    env: Env<'a>,
    t: TargetsV<'a>,
    is_target: bool,
    from: int,
    st: St<'a>,
    i: int,
    make: Seq<Seq<char>>,
)
    requires
        all_good(env, t, is_target, from, st),
        0 <= i <= t.aur.len(),
    ensures
        all_good(
            env,
            t,
            is_target,
            from,
            targets::aur_targets(env, st, t.aur.skip(i), make, is_target, t.aur),
        ),
    decreases t.aur.len() - i,
{
    if i < t.aur.len() {
        assert(t.aur.skip(i)[0] == t.aur[i]);
        assert(t.aur.skip(i).drop_first() =~= t.aur.skip(i + 1));
        let s = targets::aur_target(env, st, t.aur[i], make, is_target, t.aur);
        lemma_aur_target(env, t, is_target, from, st, i, make);
        lemma_aur_targets(env, t, is_target, from, s, i + 1, make);
    }
}

/// Nothing is installed, built or missing without a reason. A sync package is installed for a target,
/// or for a dependency that nothing installed meets. A package is built for a target, or for a
/// dependency that no sync package meets, nor anything installed unless that does not count, and one
/// of a pkgbuild repo goes before one of the AUR. What is missing can be had nowhere. And each such
/// dependency is one of a package that is itself to be installed or built or is picked for a target.
pub proof fn law_reasons<'a>(
    env: Env<'a>,
    st: St<'a>,
    t: TargetsV<'a>,
    make_deps: Seq<TargV>,
    is_target: bool,
)
    requires
        laws::fresh(st),
    ensures
        ({
            let r = targets::outcome(env, st, t, make_deps, is_target);
            reasons(
                env,
                t,
                is_target,
                st.missing.len() as int,
                r,
                |d: DependV| install_lists(r, d),
                |d: DependV| build_lists(env, t, is_target, r, d),
            )
        }),
{
    let make = targets::pkg_parts(make_deps);
    let from = st.missing.len() as int;
    let s0 = St { resolved: Set::empty(), ..st };
    let s1 = targets::repo_targets(env, s0, t.repo, make, is_target);
    let s2 = targets::pkgbuild_targets(env, s1, t.pkgbuild, make, is_target, t.aur);
    let s = targets::aur_targets(env, s2, t.aur, make, is_target, t.aur);
    let r = targets::outcome(env, st, t, make_deps, is_target);
    assert(t.repo.skip(0) =~= t.repo);
    assert(t.pkgbuild.skip(0) =~= t.pkgbuild);
    assert(t.aur.skip(0) =~= t.aur);
    assert(all_good(env, t, is_target, from, s0));
    lemma_repo_targets(env, t, is_target, from, s0, 0, make);
    lemma_pkgbuild_targets(env, t, is_target, from, s1, 0, make);
    lemma_aur_targets(env, t, is_target, from, s2, 0, make);
    if env.flags.has(Flags::CALCULATE_MAKE) {
        laws::lemma_makes(env, s, s.make_only(env));
        lemma_same(env, t, is_target, from, s, r, no_dep(), no_dep());
    }
    lemma_more(
        env,
        t,
        is_target,
        from,
        r,
        repo_deps(r, no_dep()),
        build_deps(env, t, is_target, r, no_dep()),
        |d: DependV| install_lists(r, d),
        |d: DependV| build_lists(env, t, is_target, r, d),
    );
}

} // verus!
