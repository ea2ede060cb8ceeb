//! What is found where, stated over what there is.
use std::sync::Arc;
use vstd::prelude::*;
use crate::base::{BaseV, RepoPackage};
use crate::cache;
use crate::depend::DependV;
use crate::flags::Flags;
use crate::model;
use crate::model::Env;
use crate::pkg;
use crate::pkg::{AurOrPkgbuild, AurPkg, PkgbuildRepo, Srcinfo, SrcinfoPkg};
use crate::satisfies;
use crate::satisfies::laws;
use crate::satisfies::Satisfies;
use crate::seqs;
use crate::target::TargV;
use crate::text;

verus! {

/// The installed package of a name is the first one with the name, and there is none only where no
/// installed package has the name.
pub proof fn law_local_pkg<'a>(env: Env<'a>, name: Seq<char>)
    ensures
        ({
            let local = env.m.system.localdb@;
            match env.local_pkg(name) {
                Some(p) => exists|i: int|
                    0 <= i < local.len() && (#[trigger] local[i]) == p && p.name@ == name
                        && forall|j: int| 0 <= j < i ==> (#[trigger] local[j]).name@ != name,
                None => forall|i: int| 0 <= i < local.len() ==> (#[trigger] local[i]).name@ != name,
            }
        }),
{
    let local = env.m.system.localdb@;
    let f = model::alpm_named(name);
    seqs::lemma_first(local, f);
    let k = seqs::first_at(local, f);
    if k < local.len() {
        assert(f(local[k]));
        assert forall|j: int| 0 <= j < k implies (#[trigger] local[j]).name@ != name by {
            assert(!f(local[j]));
        }
    } else {
        assert forall|i: int| 0 <= i < local.len() implies (#[trigger] local[i]).name@ != name by {
            assert(!f(local[i]));
        }
    }
}

/// The package of a name among those that were looked up is the first one with the name, and there
/// is none only where no package has the name.
pub proof fn law_cached(c: Seq<Arc<AurPkg>>, name: Seq<char>)
    ensures
        match cache::lookup(c, name) {
            Some(p) => exists|i: int|
                0 <= i < c.len() && (#[trigger] c[i]) == p && p.name@ == name && forall|j: int|
                    0 <= j < i ==> (#[trigger] c[j]).name@ != name,
            None => forall|i: int| 0 <= i < c.len() ==> (#[trigger] c[i]).name@ != name,
        },
{
    let f = cache::named(name);
    seqs::lemma_first(c, f);
    let k = seqs::first_at(c, f);
    if k < c.len() {
        assert(f(c[k]));
        assert forall|j: int| 0 <= j < k implies (#[trigger] c[j]).name@ != name by {
            assert(!f(c[j]));
        }
    } else {
        assert forall|i: int| 0 <= i < c.len() implies (#[trigger] c[i]).name@ != name by {
            assert(!f(c[i]));
        }
    }
}

/// The .SRCINFO has a package with the name.
pub open spec fn has_pkg(s: Srcinfo, name: Seq<char>) -> bool {
    exists|i: int| 0 <= i < s.pkgs@.len() && (#[trigger] s.pkgs@[i]).pkgname@ == name
}

/// The package is the first of the .SRCINFO with the name.
pub open spec fn is_first_pkg(s: Srcinfo, p: SrcinfoPkg, name: Seq<char>) -> bool {
    exists|i: int|
        0 <= i < s.pkgs@.len() && (#[trigger] s.pkgs@[i]) == p && p.pkgname@ == name && forall|j: int|
            0 <= j < i ==> (#[trigger] s.pkgs@[j]).pkgname@ != name
}

/// The package of a name in a .SRCINFO.
proof fn lemma_srcinfo(s: Srcinfo, name: Seq<char>)
    ensures
        s.pkg_index(name) < s.pkgs@.len() <==> has_pkg(s, name),
        0 <= s.pkg_index(name) <= s.pkgs@.len(),
        has_pkg(s, name) ==> is_first_pkg(s, s.pkgs@[s.pkg_index(name)], name),
{
    lemma_index(s.pkgs@, name);
    let i = s.pkg_index(name);
    if i < s.pkgs@.len() {
        assert(s.pkgs@[i].pkgname@ == name);
    }
}

/// The first package with a name.
proof fn lemma_index(pkgs: Seq<SrcinfoPkg>, name: Seq<char>)
    ensures
        0 <= pkg::pkg_index_from(pkgs, name) <= pkgs.len(),
        pkg::pkg_index_from(pkgs, name) < pkgs.len() ==> pkgs[pkg::pkg_index_from(
            pkgs,
            name,
        )].pkgname@ == name,
        forall|j: int|
            0 <= j < pkg::pkg_index_from(pkgs, name) ==> (#[trigger] pkgs[j]).pkgname@ != name,
    decreases pkgs.len(),
{
    if pkgs.len() > 0 && pkgs[0].pkgname@ != name {
        let rest = pkgs.drop_first();
        lemma_index(rest, name);
        assert forall|j: int| 0 <= j < pkg::pkg_index_from(pkgs, name) implies (
        #[trigger] pkgs[j]).pkgname@ != name by {
            if j > 0 {
                assert(rest[j - 1] == pkgs[j]);
            }
        }
    }
}

/// No .SRCINFO of the repo has a package with the name.
pub open spec fn repo_lacks<'a>(repo: PkgbuildRepo<'a>, name: Seq<char>) -> bool {
    forall|k: int| 0 <= k < repo.pkgs@.len() ==> !has_pkg(*(#[trigger] repo.pkgs@[k]), name)
}

/// The .SRCINFO is the first of the repo that has a package with the name.
pub open spec fn is_first_srcinfo<'a>(
    repo: PkgbuildRepo<'a>,
    s: &'a Srcinfo,
    name: Seq<char>,
) -> bool {
    exists|k: int|
        0 <= k < repo.pkgs@.len() && (#[trigger] repo.pkgs@[k]) == s && has_pkg(*s, name)
            && forall|j: int| 0 <= j < k ==> !has_pkg(*(#[trigger] repo.pkgs@[j]), name)
}

/// The package of a name in pkgbuild repos is the first with the name, of the first .SRCINFO that has
/// one, of the first repo that has one. There is none only where no repo has one.
pub proof fn law_pkgbuild_named<'a>(repos: Seq<PkgbuildRepo<'a>>, name: Seq<char>)
    ensures
        match model::pkgbuild_named(repos, name) {
            Some((repo, s, p)) => exists|r: int|
                0 <= r < repos.len() && (#[trigger] repos[r]).name@ == repo && is_first_srcinfo(
                    repos[r],
                    s,
                    name,
                ) && is_first_pkg(*s, *p, name) && forall|q: int|
                    0 <= q < r ==> repo_lacks(#[trigger] repos[q], name),
            None => forall|r: int| 0 <= r < repos.len() ==> repo_lacks(#[trigger] repos[r], name),
        },
    decreases repos.len(),
{
    if repos.len() > 0 {
        let f = model::srcinfo_named::<'a>(name);
        let pkgs = repos[0].pkgs@;
        let rest = repos.drop_first();
        seqs::lemma_first(pkgs, f);
        let k = seqs::first_at(pkgs, f);
        assert forall|j: int| 0 <= j < pkgs.len() implies f(#[trigger] pkgs[j]) == has_pkg(
            *pkgs[j],
            name,
        ) by {
            lemma_srcinfo(*pkgs[j], name);
        }
        if k < pkgs.len() {
            let s = pkgs[k];
            assert(f(s));
            lemma_srcinfo(*s, name);
            assert forall|j: int| 0 <= j < k implies !has_pkg(*(#[trigger] pkgs[j]), name) by {
                assert(!f(pkgs[j]));
            }
            assert(is_first_srcinfo(repos[0], s, name));
            assert(repos[0].name@ == repos[0].name@);
        } else {
            assert(repo_lacks(repos[0], name)) by {
                assert forall|j: int| 0 <= j < pkgs.len() implies !has_pkg(
                    *(#[trigger] pkgs[j]),
                    name,
                ) by {
                    assert(!f(pkgs[j]));
                }
            }
            law_pkgbuild_named(rest, name);
            match model::pkgbuild_named(rest, name) {
                Some((repo, s, p)) => {
                    let r = choose|r: int|
                        0 <= r < rest.len() && (#[trigger] rest[r]).name@ == repo
                            && is_first_srcinfo(rest[r], s, name) && is_first_pkg(*s, *p, name)
                            && forall|q: int|
                            0 <= q < r ==> repo_lacks(#[trigger] rest[q], name);
                    assert(repos[r + 1] == rest[r]);
                    assert forall|q: int| 0 <= q < r + 1 implies repo_lacks(
                        #[trigger] repos[q],
                        name,
                    ) by {
                        if q > 0 {
                            assert(rest[q - 1] == repos[q]);
                        }
                    }
                },
                None => {
                    assert forall|r: int| 0 <= r < repos.len() implies repo_lacks(
                        #[trigger] repos[r],
                        name,
                    ) by {
                        if r > 0 {
                            assert(rest[r - 1] == repos[r]);
                        }
                    }
                },
            }
        }
    }
}

/// Something is taken as installed for a dependency where, and only where, one of the things that are
/// to be taken as installed provides it.
pub proof fn law_assumed<'a>(env: Env<'a>, dep: DependV)
    ensures
        env.assumed(dep) <==> exists|i: int|
            0 <= i < env.m.system.assume_installed@.len() && laws::provides_it(
                env.m,
                (#[trigger] env.m.system.assume_installed@[i])@,
                dep,
                env.flags.has(Flags::NO_DEP_VERSION),
            ),
{
    let v = env.m.system.assume_installed@;
    let nover = env.flags.has(Flags::NO_DEP_VERSION);
    if env.assumed(dep) {
        let i = choose|i: int|
            0 <= i < v.len() && #[trigger] satisfies::provide_ok(env.m, dep, v[i]@, env.nover());
        laws::law_provide(env.m, v[i]@, dep, nover);
        assert(laws::provides_it(env.m, env.m.system.assume_installed@[i]@, dep, nover));
    }
    if exists|i: int| 0 <= i < v.len() && laws::provides_it(env.m, (#[trigger] v[i])@, dep, nover) {
        let i = choose|i: int|
            0 <= i < v.len() && laws::provides_it(env.m, (#[trigger] v[i])@, dep, nover);
        laws::law_provide(env.m, v[i]@, dep, nover);
        assert(satisfies::provide_ok(env.m, dep, v[i]@, env.nover()));
        assert(env.assumed(dep));
    }
}

/// A dependency is met by what is installed where libalpm finds an installed package for it, or where
/// the installed package of its name meets it. Where version constraints are ignored libalpm is asked
/// for the name alone.
pub proof fn law_sat_local<'a>(env: Env<'a>, dep: DependV)
    ensures
        env.flags.has(Flags::NO_DEP_VERSION) ==> (env.sat_local(dep) <==> (env.m.local_satisfier)(
            dep.name,
        ) || exists|i: int|
            0 <= i < env.m.system.localdb@.len() && (#[trigger] env.m.system.localdb@[i]).name@
                == dep.name),
        !env.flags.has(Flags::NO_DEP_VERSION) ==> (env.sat_local(dep) ==> (env.m.local_satisfier)(
            dep.text,
        ) || exists|i: int|
            0 <= i < env.m.system.localdb@.len() && (#[trigger] env.m.system.localdb@[i]).name@
                == dep.name && env.m.system.localdb@[i].which(env.m, dep, false) is Some),
        !env.flags.has(Flags::NO_DEP_VERSION) && (env.m.local_satisfier)(dep.text)
            ==> env.sat_local(dep),
        !env.flags.has(Flags::NO_DEP_VERSION) && (forall|i: int|
            0 <= i < env.m.system.localdb@.len() && (#[trigger] env.m.system.localdb@[i]).name@
                == dep.name ==> env.m.system.localdb@[i].which(env.m, dep, false) is Some) && (
        exists|i: int|
            0 <= i < env.m.system.localdb@.len() && (#[trigger] env.m.system.localdb@[i]).name@
                == dep.name) ==> env.sat_local(dep),
{
    let local = env.m.system.localdb@;
    law_local_pkg(env, dep.name);
    if let Some(p) = env.local_pkg(dep.name) {
        laws::law_alpm_pkg(env.m, p, dep, env.nover());
        let i = choose|i: int|
            0 <= i < local.len() && (#[trigger] local[i]) == p && p.name@ == dep.name;
        assert(local[i].name@ == dep.name);
    }
}

/// A dependency is met by what is to be installed where, and only where, one of the packages meets it.
pub proof fn law_sat_install<'a>(env: Env<'a>, install: Seq<RepoPackage<'a>>, dep: DependV)
    ensures
        env.sat_install(install, dep) <==> exists|i: int|
            0 <= i < install.len() && (#[trigger] install[i]).pkg.which(
                env.m,
                dep,
                env.flags.has(Flags::NO_DEP_VERSION),
            ) is Some,
{
}

/// A package of the base meets the dependency.
pub open spec fn base_meets<'a>(env: Env<'a>, base: BaseV<'a>, dep: DependV) -> bool {
    let nover = env.flags.has(Flags::NO_DEP_VERSION);
    match base {
        BaseV::Aur { pkgs, .. } => exists|k: int|
            0 <= k < pkgs.len() && (#[trigger] pkgs[k]).pkg.which(env.m, dep, nover) is Some,
        BaseV::Pkgbuild { srcinfo, pkgs, .. } => exists|k: int|
            0 <= k < pkgs.len() && (srcinfo, (#[trigger] pkgs[k]).pkg).which(
                env.m,
                dep,
                nover,
            ) is Some,
    }
}

/// A dependency is met by what is to be built where, and only where, a package of one of the bases
/// meets it.
pub proof fn law_sat_build<'a>(env: Env<'a>, build: Seq<BaseV<'a>>, dep: DependV)
    ensures
        env.sat_build(build, dep) <==> exists|b: int|
            0 <= b < build.len() && base_meets(env, #[trigger] build[b], dep),
{
    assert forall|b: int| 0 <= b < build.len() implies env.sat_base(#[trigger] build[b], dep)
        == base_meets(env, build[b], dep) by {
        match build[b] {
            BaseV::Aur { pkgs, .. } => {
                assert forall|k: int| 0 <= k < pkgs.len() implies (
                #[trigger] pkgs[k]).pkg.which(env.m, dep, env.nover()) is Some
                    == satisfies::aur_ok(env.m, *pkgs[k].pkg, dep, env.nover()) by {
                }
            },
            BaseV::Pkgbuild { srcinfo, pkgs, .. } => {
                assert forall|k: int| 0 <= k < pkgs.len() implies (srcinfo, (
                #[trigger] pkgs[k]).pkg).which(env.m, dep, env.nover()) is Some
                    == satisfies::srcinfo_ok(
                    env.m,
                    *srcinfo,
                    *pkgs[k].pkg,
                    dep,
                    env.nover(),
                ) by {
                }
            },
        }
    }
}

/// What a dependency string is without its version constraint: it goes on to the first `<`, `=` or
/// `>`.
pub open spec fn is_bare(s: Seq<char>, bare: Seq<char>) -> bool {
    &&& bare.is_prefix_of(s)
    &&& forall|i: int| 0 <= i < bare.len() ==> !['<', '=', '>']@.contains(#[trigger] bare[i])
    &&& bare.len() < s.len() ==> ['<', '=', '>']@.contains(s[bare.len() as int])
}

/// A dependency string has one name.
pub proof fn law_no_ver(s: Seq<char>, bare: Seq<char>)
    ensures
        text::no_ver(s) == bare <==> is_bare(s, bare),
{
    let stop = |c: char| text::ver_char(c);
    let n = text::first_index(s, stop);
    laws::lemma_first(s, stop);
    let v = ['<', '=', '>']@;
    assert(v[0] == '<' && v[1] == '=' && v[2] == '>');
    assert forall|c: char| #[trigger] v.contains(c) == stop(c) by {
        if v.contains(c) {
            let i = choose|i: int| 0 <= i < v.len() && v[i] == c;
        }
    }
    if text::no_ver(s) == bare {
        assert forall|i: int| 0 <= i < bare.len() implies !v.contains(#[trigger] bare[i]) by {
            assert(bare[i] == s[i]);
            assert(!stop(s[i]));
        }
        assert(bare =~= s.subrange(0, bare.len() as int));
    }
    if is_bare(s, bare) {
        let k = bare.len() as int;
        if n < k {
            assert(bare[n] == s[n]);
            assert(stop(s[n]));
        }
        if k < n {
            assert(!stop(s[k]));
        }
        assert(s.take(n) =~= bare);
    }
}

/// The sync databases are asked for the dependency as it is, and without its version constraint where
/// those are ignored.
pub proof fn law_query<'a>(env: Env<'a>, s: Seq<char>, bare: Seq<char>, repo: Option<Seq<char>>)
    requires
        is_bare(s, bare),
    ensures
        ({
            let q = if env.flags.has(Flags::NO_DEP_VERSION) {
                bare
            } else {
                s
            };
            &&& env.repo_sat(s) == (env.m.repo_satisfier)(q)
            &&& env.repo_sat_silent(s) == (env.m.repo_satisfier_silent)(q)
            &&& env.target_sat(TargV { repo, pkg: s }) == (env.m.target_satisfier)(
                TargV { repo, pkg: q },
            )
        }),
{
    law_no_ver(s, bare);
}

/// No .SRCINFO of the repo has a package that meets the dependency.
pub open spec fn repo_unmet<'a>(env: Env<'a>, repo: PkgbuildRepo<'a>, dep: DependV) -> bool {
    forall|k: int|
        0 <= k < repo.pkgs@.len() ==> (#[trigger] repo.pkgs@[k]).which(
            env.m,
            dep,
            env.flags.has(Flags::NO_DEP_VERSION),
        ) is None
}

/// The .SRCINFO is the first of the repo with a package that meets the dependency, and the package is
/// the first in it with the name of the one that does.
pub open spec fn first_met<'a>(
    env: Env<'a>,
    repo: PkgbuildRepo<'a>,
    s: &'a Srcinfo,
    p: &'a SrcinfoPkg,
    dep: DependV,
) -> bool {
    let nover = env.flags.has(Flags::NO_DEP_VERSION);
    exists|k: int|
        0 <= k < repo.pkgs@.len() && (#[trigger] repo.pkgs@[k]) == s && (s.which(
            env.m,
            dep,
            nover,
        ) matches Some(name) && is_first_pkg(*s, *p, name)) && forall|j: int|
            0 <= j < k ==> (#[trigger] repo.pkgs@[j]).which(env.m, dep, nover) is None
}

/// The package of pkgbuild repos for a dependency is the first that meets it, of the first .SRCINFO
/// with one, of the first repo with one. With a repo given only that one counts. There is none only
/// where no package meets the dependency.
pub proof fn law_pkgbuild_dep<'a>(
    env: Env<'a>,
    repos: Seq<PkgbuildRepo<'a>>,
    repo: Option<Seq<char>>,
    dep: DependV,
)
    ensures
        match env.pkgbuild_dep_in(repos, repo, dep) {
            Some((name, s, p)) => (repo is None || repo == Some(name)) && exists|r: int|
                0 <= r < repos.len() && (#[trigger] repos[r]).name@ == name && first_met(
                    env,
                    repos[r],
                    s,
                    p,
                    dep,
                ) && forall|q: int|
                    0 <= q < r && (repo is None || repo == Some((#[trigger] repos[q]).name@))
                        ==> repo_unmet(env, repos[q], dep),
            None => forall|r: int|
                0 <= r < repos.len() && (repo is None || repo == Some((#[trigger] repos[r]).name@))
                    ==> repo_unmet(env, repos[r], dep),
        },
    decreases repos.len(),
{
    if repos.len() > 0 {
        let f = env.srcinfo_has(dep);
        let pkgs = repos[0].pkgs@;
        let rest = repos.drop_first();
        seqs::lemma_first(pkgs, f);
        let k = seqs::first_at(pkgs, f);
        if (repo is None || repo == Some(repos[0].name@)) && k < pkgs.len() {
            let s = pkgs[k];
            assert(f(s));
            let name = s.which(env.m, dep, env.nover())->0;
            laws::law_srcinfo(env.m, s, dep, env.nover());
            assert(has_pkg(*s, name));
            lemma_srcinfo(*s, name);
            assert forall|j: int| 0 <= j < k implies (#[trigger] repos[0].pkgs@[j]).which(
                env.m,
                dep,
                env.flags.has(Flags::NO_DEP_VERSION),
            ) is None by {
                assert(!f(pkgs[j]));
            }
            assert(repos[0].pkgs@[k] == s);
            assert(first_met(env, repos[0], s, &s.pkgs@[s.pkg_index(name)], dep));
            assert(repos[0].name@ == repos[0].name@);
        } else {
            if repo is None || repo == Some(repos[0].name@) {
                assert forall|j: int| 0 <= j < pkgs.len() implies (
                #[trigger] repos[0].pkgs@[j]).which(
                    env.m,
                    dep,
                    env.flags.has(Flags::NO_DEP_VERSION),
                ) is None by {
                    assert(!f(pkgs[j]));
                }
            }
            law_pkgbuild_dep(env, rest, repo, dep);
            match env.pkgbuild_dep_in(rest, repo, dep) {
                Some((name, s, p)) => {
                    let r = choose|r: int|
                        0 <= r < rest.len() && (#[trigger] rest[r]).name@ == name && first_met(
                            env,
                            rest[r],
                            s,
                            p,
                            dep,
                        ) && forall|q: int|
                            0 <= q < r && (repo is None || repo == Some(
                                (#[trigger] rest[q]).name@,
                            )) ==> repo_unmet(env, rest[q], dep);
                    assert(repos[r + 1] == rest[r]);
                    assert forall|q: int|
                        0 <= q < r + 1 && (repo is None || repo == Some(
                            (#[trigger] repos[q]).name@,
                        )) implies repo_unmet(env, repos[q], dep) by {
                        if q > 0 {
                            assert(rest[q - 1] == repos[q]);
                        }
                    }
                },
                None => {
                    assert forall|r: int|
                        0 <= r < repos.len() && (repo is None || repo == Some(
                            (#[trigger] repos[r]).name@,
                        )) implies repo_unmet(env, repos[r], dep) by {
                        if r > 0 {
                            assert(rest[r - 1] == repos[r]);
                        }
                    }
                },
            }
        }
    }
}

/// A package with the name is installed.
pub open spec fn is_installed<'a>(env: Env<'a>, name: Seq<char>) -> bool {
    exists|i: int|
        0 <= i < env.m.system.localdb@.len() && (#[trigger] env.m.system.localdb@[i]).name@ == name
}

/// The package meets the dependency.
pub open spec fn aur_meets<'a>(env: Env<'a>, p: Arc<AurPkg>, dep: DependV) -> bool {
    p.which(env.m, dep, env.flags.has(Flags::NO_DEP_VERSION)) is Some
}

/// An AUR package for a dependency is one that meets it, and there is one wherever one does. One that
/// is installed goes before the one of the very name, and that before the others.
pub proof fn law_find_aur<'a>(env: Env<'a>, dep: DependV, k: int)
    requires
        cache::distinct(env.cache),
        0 <= k < env.cache.len(),
        aur_meets(env, env.cache[k], dep),
    ensures
        env.find_aur(dep) matches Some(p) && env.cache.contains(p) && aur_meets(env, p, dep) && {
            &&& is_installed(env, env.cache[k].name@) ==> is_installed(env, p.name@)
            &&& !is_installed(env, p.name@) && env.cache[k].name@ == dep.name ==> p
                == env.cache[k]
        },
{
    let c = env.cache;
    let f = env.aur_sat_installed(dep);
    let g = env.aur_sat(dep);
    let q = c[k];
    seqs::lemma_first(c, f);
    seqs::lemma_first(c, g);
    law_cached(c, dep.name);
    assert(g(c[k]));
    assert forall|n: Seq<char>| #[trigger] is_installed(env, n) == (env.local_pkg(n) is Some) by {
        law_local_pkg(env, n);
        if let Some(p) = env.local_pkg(n) {
            let local = env.m.system.localdb@;
            let i = choose|i: int| 0 <= i < local.len() && (#[trigger] local[i]) == p && p.name@ == n;
            assert(local[i].name@ == n);
        }
    }
    let a = seqs::first_at(c, f);
    if a < c.len() {
        assert(f(c[a]));
        assert(c.contains(c[a]));
        assert(is_installed(env, c[a].name@));
    } else {
        assert(!f(c[k]));
        assert(!is_installed(env, q.name@));
        let b = seqs::first_at(c, g);
        assert(g(c[b]));
        assert(c.contains(c[b]));
        if let Some(p) = cache::lookup(c, dep.name) {
            let i = choose|i: int| 0 <= i < c.len() && (#[trigger] c[i]) == p && p.name@ == dep.name;
            assert(c.contains(c[i]));
            if q.name@ == dep.name && i != k {
                assert(c[i].name@ == c[k].name@);
            }
        }
    }
}

/// No AUR package is found for a dependency where none meets it.
pub proof fn law_find_none<'a>(env: Env<'a>, dep: DependV)
    requires
        forall|k: int| 0 <= k < env.cache.len() ==> !aur_meets(env, #[trigger] env.cache[k], dep),
    ensures
        env.find_aur(dep) is None,
        env.candidates(dep).len() == 0,
{
    let c = env.cache;
    let f = env.aur_sat_installed(dep);
    let g = env.aur_sat(dep);
    assert forall|k: int| 0 <= k < c.len() implies !g(#[trigger] c[k]) && !f(c[k]) by {
        assert(!aur_meets(env, c[k], dep));
    }
    seqs::lemma_first(c, f);
    seqs::lemma_first(c, g);
    seqs::lemma_filter_empty(c, g);
    law_cached(c, dep.name);
    if let Some(p) = cache::lookup(c, dep.name) {
        let i = choose|i: int| 0 <= i < c.len() && (#[trigger] c[i]) == p && p.name@ == dep.name;
        assert(!g(c[i]));
    }
}

/// The packages that a choice is between are those that meet the dependency.
pub proof fn law_candidates<'a>(env: Env<'a>, dep: DependV, name: Seq<char>)
    ensures
        env.candidates(dep).contains(name) <==> exists|k: int|
            0 <= k < env.cache.len() && (#[trigger] env.cache[k]).name@ == name && aur_meets(
                env,
                env.cache[k],
                dep,
            ),
{
    let c = env.cache;
    let g = env.aur_sat(dep);
    let met = c.filter(g);
    let names = env.candidates(dep);
    if names.contains(name) {
        let i = choose|i: int| 0 <= i < names.len() && names[i] == name;
        assert(met.contains(met[i]));
        seqs::lemma_filter_contains(c, g, met[i]);
        let k = choose|k: int| 0 <= k < c.len() && c[k] == met[i];
        assert(c[k].name@ == name && aur_meets(env, c[k], dep));
    }
    if exists|k: int|
        0 <= k < c.len() && (#[trigger] c[k]).name@ == name && aur_meets(env, c[k], dep) {
        let k = choose|k: int|
            0 <= k < c.len() && (#[trigger] c[k]).name@ == name && aur_meets(env, c[k], dep);
        assert(c.contains(c[k]) && g(c[k]));
        seqs::lemma_filter_contains(c, g, c[k]);
        let i = choose|i: int| 0 <= i < met.len() && met[i] == c[k];
        assert(names[i] == name);
    }
}

/// Where the provider callback has not to decide: without one, what is found is picked. With one, for
/// a dependency, a package that is installed is picked wherever one that meets it is.
pub proof fn law_picked<'a>(env: Env<'a>, dep: DependV, k: int)
    requires
        cache::distinct(env.cache),
        0 <= k < env.cache.len(),
        aur_meets(env, env.cache[k], dep),
        is_installed(env, env.cache[k].name@),
    ensures
        env.provider is None ==> env.select_aur(dep, true) == env.find_aur(dep)
            && env.select_aur(dep, false) == env.find_aur(dep),
        env.select_aur(dep, false) matches Some(p) && env.cache.contains(p) && aur_meets(
            env,
            p,
            dep,
        ) && is_installed(env, p.name@),
{
    let c = env.cache;
    law_find_aur(env, dep, k);
    if env.provider is Some {
        let names = env.candidates(dep);
        let h = env.installed();
        seqs::lemma_first(names, h);
        law_candidates(env, dep, c[k].name@);
        let i = choose|i: int| 0 <= i < names.len() && names[i] == c[k].name@;
        law_local_pkg(env, names[i]);
        assert(h(names[i]));
        let a = seqs::first_at(names, h);
        assert(a < names.len());
        let name = names[a];
        assert(names.contains(name));
        assert(h(name));
        law_candidates(env, dep, name);
        let j = choose|j: int|
            0 <= j < c.len() && (#[trigger] c[j]).name@ == name && aur_meets(env, c[j], dep);
        law_cached(c, name);
        let p = cache::lookup(c, name)->0;
        let x = choose|x: int| 0 <= x < c.len() && (#[trigger] c[x]) == p && p.name@ == name;
        if x != j {
            assert(c[x].name@ == c[j].name@);
        }
        assert(c.contains(c[x]));
        law_local_pkg(env, name);
        let l = env.local_pkg(name)->0;
        let local = env.m.system.localdb@;
        let z = choose|z: int| 0 <= z < local.len() && (#[trigger] local[z]) == l && l.name@ == name;
        assert(local[z].name@ == name);
        assert(is_installed(env, p.name@));
    }
}

/// The packages are offered with the one of the very name first, and the others in order.
pub proof fn law_offer_order(names: Seq<Seq<char>>, name: Seq<char>)
    ensures
        ({
            let offer = model::offered(names, name);
            &&& names.contains(name) ==> offer.len() > 0 && offer[0] == name && text::is_sorted(
                offer.drop_first(),
            )
            &&& !names.contains(name) ==> text::is_sorted(offer)
            &&& offer.len() == names.len()
        }),
{
    let f = model::is_name(name);
    seqs::lemma_first(names, f);
    let k = seqs::first_at(names, f);
    if names.contains(name) {
        let i = choose|i: int| 0 <= i < names.len() && names[i] == name;
        assert(f(names[i]));
        text::lemma_sorted(names.remove(k));
        assert((seq![name] + text::sorted(names.remove(k))).drop_first() =~= text::sorted(
            names.remove(k),
        ));
    } else {
        if k < names.len() {
            assert(f(names[k]));
            assert(names.contains(names[k]));
        }
        text::lemma_sorted(names);
    }
}

/// The field holds the string.
pub open spec fn listed(v: Seq<String>, x: Seq<char>) -> bool {
    exists|j: int| 0 <= j < v.len() && (#[trigger] v[j])@ == x
}

/// One of the fields that are for the architecture holds the string.
pub open spec fn listed_for(vs: Seq<pkg::ArchVec>, arch: Option<Seq<char>>, x: Seq<char>) -> bool {
    exists|a: int, j: int|
        0 <= a < vs.len() && laws::applies(vs[a], arch) && 0 <= j < vs[a].vec@.len() && (
        #[trigger] vs[a].vec@[j])@ == x
}

/// The architecture whose fields count: the first one of the system, or an empty one.
pub open spec fn is_arch<'a>(env: Env<'a>, arch: Seq<char>) -> bool {
    let archs = env.m.system.architectures@;
    if archs.len() > 0 {
        arch == archs[0]@
    } else {
        arch.len() == 0
    }
}

/// The strings of a list.
proof fn lemma_strs(v: Seq<String>, x: Seq<char>)
    ensures
        text::strs(v).contains(x) <==> listed(v, x),
{
    let s = text::strs(v);
    if s.contains(x) {
        let j = choose|j: int| 0 <= j < s.len() && s[j] == x;
        assert(v[j]@ == x);
    }
    if listed(v, x) {
        let j = choose|j: int| 0 <= j < v.len() && (#[trigger] v[j])@ == x;
        assert(s[j] == x);
    }
}

/// What is in one of three sequences.
proof fn lemma_three(a: Seq<Seq<char>>, b: Seq<Seq<char>>, c: Seq<Seq<char>>, x: Seq<char>)
    ensures
        (a + b + c).contains(x) <==> a.contains(x) || b.contains(x) || c.contains(x),
{
    let s = a + b + c;
    if s.contains(x) {
        let i = choose|i: int| 0 <= i < s.len() && s[i] == x;
        if i < a.len() {
            assert(a[i] == x);
        } else if i < a.len() + b.len() {
            assert(b[i - a.len()] == x);
        } else {
            assert(c[i - a.len() - b.len()] == x);
        }
    }
    if a.contains(x) {
        let i = choose|i: int| 0 <= i < a.len() && a[i] == x;
        assert(s[i] == x);
    }
    if b.contains(x) {
        let i = choose|i: int| 0 <= i < b.len() && b[i] == x;
        assert(s[a.len() + i] == x);
    }
    if c.contains(x) {
        let i = choose|i: int| 0 <= i < c.len() && c[i] == x;
        assert(s[a.len() + b.len() + i] == x);
    }
}

/// What a package needs to be built and to run is what its fields list: make dependencies,
/// dependencies, and, where they are asked for, check dependencies. What it needs to run are its
/// dependencies alone.
pub proof fn law_needs<'a>(
    env: Env<'a>,
    p: &AurPkg,
    s: &Srcinfo,
    q: &SrcinfoPkg,
    arch: Seq<char>,
    x: Seq<char>,
)
    requires
        is_arch(env, arch),
    ensures
        ({
            let check = env.flags.has(Flags::CHECK_DEPENDS);
            let a = Some(arch);
            let aur = AurOrPkgbuild::Aur(p);
            let pkgbuild = AurOrPkgbuild::Pkgbuild(s, q);
            &&& env.needs(aur).contains(x) <==> listed(p.make_depends@, x) || listed(p.depends@, x)
                || (check && listed(p.check_depends@, x))
            &&& aur.run_needs(env.arch()).contains(x) <==> listed(p.depends@, x)
            &&& env.needs(pkgbuild).contains(x) <==> listed_for(s.base.makedepends@, a, x)
                || listed_for(q.depends@, a, x) || (check && listed_for(
                s.base.checkdepends@,
                a,
                x,
            ))
            &&& pkgbuild.run_needs(env.arch()).contains(x) <==> listed_for(q.depends@, a, x)
            &&& env.aur_needs()(Arc::new(*p)).contains(x) <==> env.needs(aur).contains(x)
        }),
{
    let check = env.flags.has(Flags::CHECK_DEPENDS);
    let none = Seq::<Seq<char>>::empty();
    let a = Some(arch);
    assert(env.arch() =~= arch);
    lemma_strs(p.make_depends@, x);
    lemma_strs(p.depends@, x);
    lemma_strs(p.check_depends@, x);
    let c = if check {
        text::strs(p.check_depends@)
    } else {
        none
    };
    lemma_three(text::strs(p.make_depends@), c, text::strs(p.depends@), x);
    lemma_three(text::strs(p.depends@), text::strs(p.make_depends@), c, x);
    laws::lemma_active(s.base.makedepends@, a, x);
    laws::lemma_active(s.base.checkdepends@, a, x);
    laws::lemma_active(q.depends@, a, x);
    let d = if check {
        pkg::active(s.base.checkdepends@, a)
    } else {
        none
    };
    lemma_three(pkg::active(s.base.makedepends@, a), d, pkg::active(q.depends@, a), x);
}

/// A dependency that is to be built is passed over for being met already only where that is not to be
/// ignored, and never for a target.
pub proof fn law_skip<'a>(env: Env<'a>, dep: DependV, is_target: bool)
    ensures
        env.skip_aur(dep, is_target) ==> !is_target && !env.flags.has(
            Flags::RESOLVE_SATISFIED_PKGBUILDS,
        ) && (env.assumed(dep) || env.sat_local(dep)),
        !is_target && !env.flags.has(Flags::RESOLVE_SATISFIED_PKGBUILDS) && env.assumed(dep)
            ==> env.skip_aur(dep, is_target),
        !is_target && !env.flags.has(Flags::RESOLVE_SATISFIED_PKGBUILDS) && env.sat_local(dep)
            ==> env.skip_aur(dep, is_target),
{
}

} // verus!
