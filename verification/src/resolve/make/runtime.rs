//! Which packages are needed at runtime, stated over the fields of the packages.
use vstd::prelude::*;
use crate::base::{AurPackage, BaseV, Pkgbuild, RepoPackage};
use crate::depend::DependV;
use crate::flags::Flags;
use crate::model::{Env, St};
use crate::pkg;
use crate::resolve::make;
use crate::resolve::make::Pos;
use crate::resolve::split::TargetsV;
use crate::resolve::targets;
use crate::satisfies::laws;
use crate::satisfies::Satisfies;
use crate::target::TargV;

verus! {

/// The field is for every architecture or for the first one of the system.
pub open spec fn on_this_machine<'a>(env: Env<'a>, f: pkg::ArchVec) -> bool {
    match f.arch {
        None => true,
        Some(a) => env.m.system.architectures@.len() > 0 && env.m.system.architectures@[0]@ == a@,
    }
}

/// The repo package depends on it.
pub open spec fn repo_depends<'a>(p: RepoPackage<'a>, dep: DependV) -> bool {
    exists|j: int| 0 <= j < p.pkg.depends@.len() && (#[trigger] p.pkg.depends@[j])@ == dep
}

/// The AUR package depends on it at runtime.
pub open spec fn aur_depends<'a>(env: Env<'a>, p: AurPackage, dep: DependV) -> bool {
    exists|j: int|
        0 <= j < p.pkg.depends@.len() && (env.m.depend)((#[trigger] p.pkg.depends@[j])@) == dep
}

/// The package of a pkgbuild repo depends on it at runtime.
pub open spec fn pkgbuild_depends<'a>(env: Env<'a>, p: Pkgbuild<'a>, dep: DependV) -> bool {
    exists|a: int, j: int|
        0 <= a < p.pkg.depends@.len() && on_this_machine(env, p.pkg.depends@[a]) && 0 <= j
            < p.pkg.depends@[a].vec@.len() && (env.m.depend)(
            (#[trigger] p.pkg.depends@[a].vec@[j])@,
        ) == dep
}

/// There is a package at the place.
pub open spec fn is_there<'a>(st: St<'a>, pos: Pos) -> bool {
    match pos {
        Pos::Install(i) => 0 <= i < st.install.len(),
        Pos::Build(b, k) => 0 <= b < st.build.len() && match st.build[b] {
            BaseV::Aur { pkgs, .. } => 0 <= k < pkgs.len(),
            BaseV::Pkgbuild { pkgs, .. } => 0 <= k < pkgs.len(),
        },
    }
}

/// The package at the place is noted as only needed to build.
pub open spec fn make_at<'a>(st: St<'a>, pos: Pos) -> bool {
    match pos {
        Pos::Install(i) => st.install[i].make,
        Pos::Build(b, k) => match st.build[b] {
            BaseV::Aur { pkgs, .. } => pkgs[k].make,
            BaseV::Pkgbuild { pkgs, .. } => pkgs[k].make,
        },
    }
}

/// The package at the place depends on it at runtime.
pub open spec fn depends_at<'a>(env: Env<'a>, st: St<'a>, pos: Pos, dep: DependV) -> bool {
    match pos {
        Pos::Install(i) => repo_depends(st.install[i], dep),
        Pos::Build(b, k) => match st.build[b] {
            BaseV::Aur { pkgs, .. } => aur_depends(env, pkgs[k], dep),
            BaseV::Pkgbuild { pkgs, .. } => pkgbuild_depends(env, pkgs[k], dep),
        },
    }
}

/// The package at the place meets the dependency.
pub open spec fn meets_at<'a>(env: Env<'a>, st: St<'a>, pos: Pos, dep: DependV) -> bool {
    let nover = env.flags.has(Flags::NO_DEP_VERSION);
    match pos {
        Pos::Install(i) => st.install[i].pkg.which(env.m, dep, nover) is Some,
        Pos::Build(b, k) => match st.build[b] {
            BaseV::Aur { pkgs, .. } => pkgs[k].pkg.which(env.m, dep, nover) is Some,
            BaseV::Pkgbuild { srcinfo, pkgs, .. } => (srcinfo, pkgs[k].pkg).which(
                env.m,
                dep,
                nover,
            ) is Some,
        },
    }
}

/// Whatever meets a runtime dependency of a package that is needed for more than building is needed for
/// more than building as well.
pub open spec fn keeps_runtime<'a>(env: Env<'a>, st: St<'a>) -> bool {
    forall|from: Pos, to: Pos, dep: DependV|
        is_there(st, from) && is_there(st, to) && !make_at(st, from) && #[trigger] depends_at(
            env,
            st,
            from,
            dep,
        ) && #[trigger] meets_at(env, st, to, dep) ==> !make_at(st, to)
}

/// What the package at the place needs at runtime is what its fields say.
proof fn lemma_depends<'a>(env: Env<'a>, st: St<'a>, pos: Pos, dep: DependV)
    requires
        is_there(st, pos),
    ensures
        st.run_deps(env, pos).contains(dep) <==> depends_at(env, st, pos, dep),
        st.meets(env, pos, dep) == meets_at(env, st, pos, dep),
        st.valid(pos),
        st.is_make(pos) == make_at(st, pos),
{
    let ds = st.run_deps(env, pos);
    match pos {
        Pos::Install(i) => {
            let v = st.install[i].pkg.depends@;
            if ds.contains(dep) {
                let j = choose|j: int| 0 <= j < ds.len() && ds[j] == dep;
                assert(v[j]@ == dep);
            }
            if depends_at(env, st, pos, dep) {
                let j = choose|j: int| 0 <= j < v.len() && (#[trigger] v[j])@ == dep;
                assert(ds[j] == dep);
            }
        },
        Pos::Build(b, k) => match st.build[b] {
            BaseV::Aur { pkgs, .. } => {
                let v = pkgs[k].pkg.depends@;
                if ds.contains(dep) {
                    let j = choose|j: int| 0 <= j < ds.len() && ds[j] == dep;
                    assert((env.m.depend)(v[j]@) == dep);
                }
                if depends_at(env, st, pos, dep) {
                    let j = choose|j: int|
                        0 <= j < v.len() && (env.m.depend)((#[trigger] v[j])@) == dep;
                    assert(ds[j] == dep);
                }
            },
            BaseV::Pkgbuild { pkgs, .. } => {
                let v = pkgs[k].pkg.depends@;
                let names = pkg::active(v, env.first_arch());
                if ds.contains(dep) {
                    let j = choose|j: int| 0 <= j < ds.len() && ds[j] == dep;
                    assert(names.contains(names[j]));
                    laws::lemma_active(v, env.first_arch(), names[j]);
                    let (a, i) = choose|a: int, i: int|
                        0 <= a < v.len() && laws::applies(v[a], env.first_arch()) && 0 <= i
                            < v[a].vec@.len() && (#[trigger] v[a].vec@[i])@ == names[j];
                    assert(on_this_machine(env, v[a]));
                    assert((env.m.depend)(v[a].vec@[i]@) == dep);
                }
                if depends_at(env, st, pos, dep) {
                    let (a, i) = choose|a: int, i: int|
                        0 <= a < v.len() && on_this_machine(env, v[a]) && 0 <= i < v[a].vec@.len()
                            && (env.m.depend)((#[trigger] v[a].vec@[i])@) == dep;
                    let x = v[a].vec@[i]@;
                    assert(laws::applies(v[a], env.first_arch()));
                    laws::lemma_active(v, env.first_arch(), x);
                    let j = choose|j: int| 0 <= j < names.len() && names[j] == x;
                    assert(ds[j] == dep);
                }
            },
        },
    }
}

/// Only what is make only is changed by working out what is: the packages and whether they are
/// targets stay.
pub open spec fn same_packages<'a>(st: St<'a>, r: St<'a>) -> bool {
    &&& r.missing == st.missing
    &&& r.unneeded == st.unneeded
    &&& r.install.len() == st.install.len()
    &&& forall|i: int|
        0 <= i < st.install.len() ==> (#[trigger] r.install[i]).pkg == st.install[i].pkg
            && r.install[i].target == st.install[i].target
    &&& r.build.len() == st.build.len()
    &&& forall|b: int|
        0 <= b < st.build.len() ==> match (st.build[b], #[trigger] r.build[b]) {
            (BaseV::Aur { pkgs: p, build: c }, BaseV::Aur { pkgs: q, build: d }) => {
                &&& c == d
                &&& p.len() == q.len()
                &&& forall|k: int|
                    0 <= k < p.len() ==> (#[trigger] q[k]).pkg == p[k].pkg && q[k].target
                        == p[k].target
            },
            (
                BaseV::Pkgbuild { repo: x, srcinfo: s, pkgs: p, build: c },
                BaseV::Pkgbuild { repo: y, srcinfo: z, pkgs: q, build: d },
            ) => {
                &&& x == y
                &&& s == z
                &&& c == d
                &&& p.len() == q.len()
                &&& forall|k: int|
                    0 <= k < p.len() ==> (#[trigger] q[k]).pkg == p[k].pkg && q[k].target
                        == p[k].target
            },
            _ => false,
        }
}

/// Working out what is only needed to build changes only that. A package that was needed for more
/// still is. Where a package is needed at runtime, so is every package that meets one of its runtime
/// dependencies. And no other package is: whatever set of places holds those that were needed for
/// more to begin with, and with a package also those that meet its runtime dependencies, holds all
/// that are.
pub proof fn law_calculate_make<'a>(
    env: Env<'a>,
    st: St<'a>,
    set: spec_fn(Pos) -> bool,
    from: Pos,
    to: Pos,
    dep: DependV,
)
    requires
        is_there(st, from),
        is_there(st, to),
    ensures
        ({
            let r = st.with_makes(st.make_only(env));
            &&& same_packages(st, r)
            &&& make_at(r, to) ==> make_at(st, to)
            &&& !make_at(r, from) && depends_at(env, r, from, dep) && meets_at(env, r, to, dep)
                ==> !make_at(r, to)
            &&& holds_start(st, set) && closed(env, st, set) && !make_at(r, to) ==> set(to)
        }),
{
    let r = st.with_makes(st.make_only(env));
    make::lemma_with_makes(st, st.make_only(env));
    lemma_depends(env, st, from, dep);
    lemma_depends(env, st, to, dep);
    make::lemma_same(env, st, r, from);
    make::lemma_same(env, st, r, to);
    assert(is_there(r, from) && is_there(r, to));
    lemma_depends(env, r, from, dep);
    lemma_depends(env, r, to, dep);
    if !make_at(st, to) {
        assert(st.reach(env, 0, to));
    }
    if !make_at(r, from) && depends_at(env, r, from, dep) && meets_at(env, r, to, dep) {
        let ds = st.run_deps(env, from);
        let j = choose|j: int| 0 <= j < ds.len() && ds[j] == dep;
        assert(st.meets(env, to, st.run_deps(env, from)[j]));
        assert(st.runs_on(env, from, to));
        let n = choose|n: nat| st.reach(env, n, from);
        assert(st.reach(env, n, from));
        assert(st.reach(env, n + 1, to));
    }
    if holds_start(st, set) && closed(env, st, set) && !make_at(r, to) {
        let n = choose|n: nat| st.reach(env, n, to);
        assert(st.reach(env, n, to));
        lemma_least(env, st, set, n, to);
    }
}

/// The set holds the places of the packages that are not make only.
pub open spec fn holds_start<'a>(st: St<'a>, set: spec_fn(Pos) -> bool) -> bool {
    forall|pos: Pos| #[trigger] is_there(st, pos) && !make_at(st, pos) ==> set(pos)
}

/// With a package the set holds those that meet its runtime dependencies.
pub open spec fn closed<'a>(env: Env<'a>, st: St<'a>, set: spec_fn(Pos) -> bool) -> bool {
    forall|p: Pos, q: Pos, dep: DependV|
        set(p) && is_there(st, p) && is_there(st, q) && #[trigger] depends_at(env, st, p, dep)
            && #[trigger] meets_at(env, st, q, dep) ==> set(q)
}

/// What is reached is in every such set.
proof fn lemma_least<'a>(env: Env<'a>, st: St<'a>, set: spec_fn(Pos) -> bool, n: nat, pos: Pos)
    requires
        holds_start(st, set),
        closed(env, st, set),
        st.reach(env, n, pos),
    ensures
        set(pos),
    decreases n,
{
    assert(st.valid(pos));
    assert(is_there(st, pos));
    lemma_depends(env, st, pos, arbitrary());
    if make_at(st, pos) {
        let q = choose|q: Pos|
            st.reach(env, (n - 1) as nat, q) && #[trigger] st.runs_on(env, q, pos);
        lemma_least(env, st, set, (n - 1) as nat, q);
        assert(st.reach(env, (n - 1) as nat, q));
        assert(is_there(st, q));
        let j = choose|j: int|
            0 <= j < st.run_deps(env, q).len() && st.meets(
                env,
                pos,
                #[trigger] st.run_deps(env, q)[j],
            );
        let dep = st.run_deps(env, q)[j];
        assert(st.run_deps(env, q).contains(dep));
        lemma_depends(env, st, q, dep);
        lemma_depends(env, st, pos, dep);
        assert(depends_at(env, st, q, dep) && meets_at(env, st, pos, dep));
    }
}

/// Working out what is only needed to build changes no package, and what stays keeps what it needs to
/// run.
pub proof fn law_keeps<'a>(env: Env<'a>, st: St<'a>)
    ensures
        same_packages(st, st.with_makes(st.make_only(env))),
        keeps_runtime(env, st.with_makes(st.make_only(env))),
{
    let r = st.with_makes(st.make_only(env));
    make::lemma_with_makes(st, st.make_only(env));
    assert forall|from: Pos, to: Pos, dep: DependV|
        is_there(r, from) && is_there(r, to) && !make_at(r, from) && #[trigger] depends_at(
            env,
            r,
            from,
            dep,
        ) && #[trigger] meets_at(env, r, to, dep) implies !make_at(r, to) by {
        assert(is_there(st, from) && is_there(st, to));
        law_calculate_make(env, st, |p: Pos| true, from, to, dep);
    }
}

/// A package that stays once everything is built keeps what it needs to run: after resolving with
/// CALCULATE_MAKE, whatever meets a runtime dependency of a package that is needed for more than
/// building is needed for more than building as well. Without CALCULATE_MAKE nothing is worked out.
pub proof fn law_kept<'a>(
    env: Env<'a>,
    st: St<'a>,
    t: TargetsV<'a>,
    make_deps: Seq<TargV>,
    is_target: bool,
    from: Pos,
    to: Pos,
    dep: DependV,
)
    ensures
        ({
            let s = targets::all_targets(
                env,
                St { resolved: Set::empty(), ..st },
                t,
                targets::pkg_parts(make_deps),
                is_target,
            );
            let r = targets::outcome(env, st, t, make_deps, is_target);
            &&& same_packages(s, r)
            &&& !env.flags.has(Flags::CALCULATE_MAKE) ==> r == s
            &&& env.flags.has(Flags::CALCULATE_MAKE) && is_there(r, from) && is_there(r, to)
                && !make_at(r, from) && depends_at(env, r, from, dep) && meets_at(env, r, to, dep)
                ==> !make_at(r, to)
        }),
{
    let s = targets::all_targets(
        env,
        St { resolved: Set::empty(), ..st },
        t,
        targets::pkg_parts(make_deps),
        is_target,
    );
    let r = targets::outcome(env, st, t, make_deps, is_target);
    make::lemma_with_makes(s, s.make_only(env));
    if env.flags.has(Flags::CALCULATE_MAKE) && is_there(r, from) && is_there(r, to) {
        assert(is_there(s, from) && is_there(s, to));
        law_calculate_make(env, s, |p: Pos| true, from, to, dep);
    }
}

} // verus!
