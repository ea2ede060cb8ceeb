//! What resolving promises as a whole.
use vstd::prelude::*;
use crate::actions::MissingV;
use crate::alpm;
use crate::alpm::AlpmPkg;
use crate::base::{AurPackage, BaseV, Package, Pkgbuild, RepoPackage};
use crate::depend;
use crate::depend::DependV;
use crate::flags::Flags;
use crate::model::{Env, St};
use crate::pkg;
use crate::pkg::{AurOrPkgbuild, Srcinfo, SrcinfoPkg};
use crate::resolve::aur_tree;
use crate::resolve::choice;
use crate::resolve::make::Pos;
use crate::resolve::split::TargetsV;
use crate::resolve::targets;
use crate::resolve::tree;
use crate::satisfies;
use crate::seqs;
use crate::target::TargV;
use crate::text;

pub mod marks;
pub mod needed;
pub mod order;
pub mod path;
pub mod reasons;
pub mod steps;

verus! {

/// The second package is the first. A target stays one, and what is not make only stays so.
pub open spec fn pkg_grows<T>(x: Package<T>, y: Package<T>) -> bool {
    &&& y.pkg == x.pkg
    &&& x.target ==> y.target
    &&& y.make ==> x.make
}

/// The second packages are the first with packages added.
pub open spec fn pkgs_grow<T>(p: Seq<Package<T>>, q: Seq<Package<T>>) -> bool {
    &&& p.len() <= q.len()
    &&& forall|i: int| 0 <= i < p.len() ==> pkg_grows(p[i], #[trigger] q[i])
}

/// The second base is the first with packages added.
pub open spec fn base_grows<'a>(x: BaseV<'a>, y: BaseV<'a>) -> bool {
    match (x, y) {
        (BaseV::Aur { pkgs: p, build: c }, BaseV::Aur { pkgs: q, build: d }) => c == d
            && pkgs_grow(p, q),
        (
            BaseV::Pkgbuild { repo: r, srcinfo: s, pkgs: p, build: c },
            BaseV::Pkgbuild { repo: t, srcinfo: u, pkgs: q, build: d },
        ) => r == t && s == u && c == d && pkgs_grow(p, q),
        _ => false,
    }
}

/// The second state is the first with more done: nothing that was to be done is taken back.
pub open spec fn grows<'a>(a: St<'a>, b: St<'a>) -> bool {
    &&& a.resolved.subset_of(b.resolved)
    &&& a.seen.subset_of(b.seen)
    &&& a.seen_target.subset_of(b.seen_target)
    &&& a.missing.is_prefix_of(b.missing)
    &&& a.unneeded.is_prefix_of(b.unneeded)
    &&& pkgs_grow(a.install, b.install)
    &&& a.build.len() <= b.build.len()
    &&& forall|i: int| 0 <= i < a.build.len() ==> base_grows(a.build[i], #[trigger] b.build[i])
}

/// Growing goes on.
proof fn lemma_grows<'a>(a: St<'a>, b: St<'a>, c: St<'a>)
    requires
        grows(a, b),
        grows(b, c),
    ensures
        grows(a, c),
{
    assert forall|i: int| 0 <= i < a.build.len() implies base_grows(
        a.build[i],
        #[trigger] c.build[i],
    ) by {
        assert(base_grows(a.build[i], b.build[i]));
        assert(base_grows(b.build[i], c.build[i]));
    }
}

/// A state grows into itself.
proof fn lemma_grows_same<'a>(a: St<'a>)
    ensures
        grows(a, a),
{
}

/// A base that has a package, and for which the name is that of its first package.
pub open spec fn has_pkgs(b: BaseV<'_>) -> bool {
    b.names().len() > 0
}

/// The bases are of the same kind and have the same name.
pub open spec fn same_name(x: BaseV<'_>, y: BaseV<'_>) -> bool {
    (x is Aur) == (y is Aur) && x.name() == y.name()
}

/// The AUR packages of a base say that they are built from the same one.
pub open spec fn one_base(b: BaseV<'_>) -> bool {
    b matches BaseV::Aur { pkgs, .. } ==> forall|k: int|
        0 <= k < pkgs.len() ==> (#[trigger] pkgs[k]).pkg.package_base@ == pkgs[0].pkg.package_base@
}

/// Each base has packages, all of one base, and of the bases of one name only the first is to be
/// built. No base comes right after another one of its name.
pub open spec fn bases_ok<'a>(build: Seq<BaseV<'a>>) -> bool {
    &&& forall|i: int| 0 <= i < build.len() ==> has_pkgs(#[trigger] build[i])
    &&& forall|i: int| 0 <= i < build.len() ==> one_base(#[trigger] build[i])
    &&& forall|i: int, j: int|
        0 <= i && j == i + 1 && j < build.len() ==> !same_name(
            #[trigger] build[i],
            #[trigger] build[j],
        )
    &&& forall|i: int, j: int|
        0 <= i < j < build.len() && same_name(#[trigger] build[i], #[trigger] build[j])
            ==> !build[j].builds()
    &&& forall|j: int|
        0 <= j < build.len() && !(#[trigger] build[j]).builds() ==> exists|i: int|
            0 <= i < j && same_name(#[trigger] build[i], build[j])
}

/// Adding an AUR package.
proof fn lemma_add_aur<'a>(st: St<'a>, p: AurPackage)
    requires
        bases_ok(st.build),
    ensures
        grows(st, st.add_aur(p)),
        bases_ok(st.add_aur(p).build),
        targets::builds(st.add_aur(p).build, p.pkg.name@),
{
    let old = st.build;
    let new = st.add_aur(p).build;
    let name = p.pkg.package_base@;
    let n = old.len() as int;
    if n > 0 && old.last() is Aur && old.last().name() == name {
        let k = n - 1;
        assert(has_pkgs(old[k]));
        assert(new[k].name() == old[k].name());
        let l = old[k]->Aur_pkgs.len() as int;
        assert(new[k].names()[l] == p.pkg.name@);
        assert(forall|i: int| 0 <= i < k ==> new[i] == old[i]);
        assert forall|i: int| 0 <= i < new.len() implies has_pkgs(#[trigger] new[i]) by {
            if i < k {
                assert(has_pkgs(old[i]));
            }
        }
        assert forall|i: int, j: int|
            0 <= i < j < new.len() && same_name(#[trigger] new[i], #[trigger] new[j]) implies
            !new[j].builds() by {
            assert(same_name(old[i], old[j]));
        }
        assert forall|j: int| 0 <= j < new.len() && !(#[trigger] new[j]).builds() implies exists|
            i: int,
        | 0 <= i < j && same_name(#[trigger] new[i], new[j]) by {
            assert(!old[j].builds());
            let i = choose|i: int| 0 <= i < j && same_name(#[trigger] old[i], old[j]);
            assert(same_name(new[i], new[j]));
        }
    } else {
        assert(new[n].names()[0] == p.pkg.name@);
        assert(new[n].name() == name);
        assert(forall|i: int| 0 <= i < n ==> new[i] == old[i]);
        assert forall|i: int| 0 <= i < new.len() implies has_pkgs(#[trigger] new[i]) by {
            if i < n {
                assert(has_pkgs(old[i]));
            }
        }
        assert forall|i: int, j: int|
            0 <= i < j < new.len() && same_name(#[trigger] new[i], #[trigger] new[j]) implies
            !new[j].builds() by {
            if j < n {
                assert(same_name(old[i], old[j]));
            } else {
                assert(old[i] is Aur && old[i].name() == name);
            }
        }
        assert forall|j: int| 0 <= j < new.len() && !(#[trigger] new[j]).builds() implies exists|
            i: int,
        | 0 <= i < j && same_name(#[trigger] new[i], new[j]) by {
            if j < n {
                assert(!old[j].builds());
                let i = choose|i: int| 0 <= i < j && same_name(#[trigger] old[i], old[j]);
                assert(same_name(new[i], new[j]));
            } else {
                let i = choose|i: int|
                    0 <= i < n && (#[trigger] old[i]) is Aur && old[i].name() == name;
                assert(same_name(new[i], new[j]));
            }
        }
    }
}

/// Adding a package of a pkgbuild repo.
proof fn lemma_add_pkgbuild<'a>(
    st: St<'a>,
    repo: Seq<char>,
    srcinfo: &'a Srcinfo,
    p: Pkgbuild<'a>,
)
    requires
        bases_ok(st.build),
    ensures
        grows(st, st.add_pkgbuild(repo, srcinfo, p)),
        bases_ok(st.add_pkgbuild(repo, srcinfo, p).build),
        targets::builds(st.add_pkgbuild(repo, srcinfo, p).build, p.pkg.pkgname@),
{
    let old = st.build;
    let new = st.add_pkgbuild(repo, srcinfo, p).build;
    let name = srcinfo.base.pkgbase@;
    let n = old.len() as int;
    if n > 0 && old.last() is Pkgbuild && old.last().name() == name {
        let k = n - 1;
        assert(has_pkgs(old[k]));
        assert(new[k].name() == old[k].name());
        let l = old[k]->Pkgbuild_pkgs.len() as int;
        assert(new[k].names()[l] == p.pkg.pkgname@);
        assert(forall|i: int| 0 <= i < k ==> new[i] == old[i]);
        assert forall|i: int| 0 <= i < new.len() implies has_pkgs(#[trigger] new[i]) by {
            if i < k {
                assert(has_pkgs(old[i]));
            }
        }
        assert forall|i: int, j: int|
            0 <= i < j < new.len() && same_name(#[trigger] new[i], #[trigger] new[j]) implies
            !new[j].builds() by {
            assert(same_name(old[i], old[j]));
        }
        assert forall|j: int| 0 <= j < new.len() && !(#[trigger] new[j]).builds() implies exists|
            i: int,
        | 0 <= i < j && same_name(#[trigger] new[i], new[j]) by {
            assert(!old[j].builds());
            let i = choose|i: int| 0 <= i < j && same_name(#[trigger] old[i], old[j]);
            assert(same_name(new[i], new[j]));
        }
    } else {
        assert(new[n].names()[0] == p.pkg.pkgname@);
        assert(new[n].name() == name);
        assert(forall|i: int| 0 <= i < n ==> new[i] == old[i]);
        assert forall|i: int| 0 <= i < new.len() implies has_pkgs(#[trigger] new[i]) by {
            if i < n {
                assert(has_pkgs(old[i]));
            }
        }
        assert forall|i: int, j: int|
            0 <= i < j < new.len() && same_name(#[trigger] new[i], #[trigger] new[j]) implies
            !new[j].builds() by {
            if j < n {
                assert(same_name(old[i], old[j]));
            } else {
                assert(old[i] is Pkgbuild && old[i].name() == name);
            }
        }
        assert forall|j: int| 0 <= j < new.len() && !(#[trigger] new[j]).builds() implies exists|
            i: int,
        | 0 <= i < j && same_name(#[trigger] new[i], new[j]) by {
            if j < n {
                assert(!old[j].builds());
                let i = choose|i: int| 0 <= i < j && same_name(#[trigger] old[i], old[j]);
                assert(same_name(new[i], new[j]));
            } else {
                let i = choose|i: int|
                    0 <= i < n && (#[trigger] old[i]) is Pkgbuild && old[i].name() == name;
                assert(same_name(new[i], new[j]));
            }
        }
    }
}

/// A package that is to be built meets the dependency. Where names are ambiguous, so that what is
/// picked for a dependency need not meet it, one with the name of what is picked is to be built.
pub open spec fn met_by_build<'a>(env: Env<'a>, build: Seq<BaseV<'a>>, dep: DependV) -> bool {
    ||| env.sat_build(build, dep)
    ||| !choice::unambiguous(env) && {
        ||| env.pkgbuild_dep(None, dep) matches Some(f) && targets::builds(build, f.2.pkgname@)
        ||| env.select_aur(dep, false) matches Some(p) && targets::builds(build, p.name@)
    }
}

/// A package with the name is to be installed.
pub open spec fn installs<'a>(install: Seq<RepoPackage<'a>>, name: Seq<char>) -> bool {
    exists|i: int| 0 <= i < install.len() && (#[trigger] install[i]).pkg.name@ == name
}

/// No two packages that are to be installed have the same name.
pub open spec fn distinct_install<'a>(install: Seq<RepoPackage<'a>>) -> bool {
    forall|i: int, j: int|
        0 <= i < j < install.len() ==> (#[trigger] install[i]).pkg.name@ != (
        #[trigger] install[j]).pkg.name@
}

/// The dependency is among what could not be satisfied.
pub open spec fn is_missing(missing: Seq<MissingV>, dep: Seq<char>) -> bool {
    exists|i: int| 0 <= i < missing.len() && (#[trigger] missing[i]).dep == dep
}

/// No package is to be installed twice, and what is to be installed has been dealt with.
spec fn install_ok<'a>(st: St<'a>) -> bool {
    &&& distinct_install(st.install)
    &&& forall|i: int|
        0 <= i < st.install.len() ==> st.seen.contains((#[trigger] st.install[i]).pkg.name@)
}

/// The dependency of a repo package is met, missing, or met by a package that is being dealt with.
spec fn repo_dealt<'a>(env: Env<'a>, st: St<'a>, dep: DependV) -> bool {
    ||| env.assumed(dep)
    ||| env.sat_local(dep)
    ||| env.sat_install(st.install, dep)
    ||| is_missing(st.missing, dep.text)
    ||| env.repo_sat(dep.text) matches Some(p) && st.seen.contains(p.name@)
}

/// Each dependency of each package that is to be installed has been dealt with.
spec fn install_closed<'a>(env: Env<'a>, st: St<'a>) -> bool {
    forall|i: int, j: int|
        0 <= i < st.install.len() && 0 <= j < st.install[i].pkg.depends@.len() ==> repo_dealt(
            env,
            st,
            #[trigger] st.install[i].pkg.depends@[j]@,
        )
}

/// What has been dealt with stays so.
proof fn lemma_repo_dealt<'a>(env: Env<'a>, a: St<'a>, b: St<'a>, dep: DependV)
    requires
        grows(a, b),
        repo_dealt(env, a, dep),
    ensures
        repo_dealt(env, b, dep),
        env.sat_install(a.install, dep) ==> env.sat_install(b.install, dep),
        is_missing(a.missing, dep.text) ==> is_missing(b.missing, dep.text),
{
    if env.sat_install(a.install, dep) {
        let i = choose|i: int|
            0 <= i < a.install.len() && satisfies::alpm_ok(
                env.m,
                *(#[trigger] a.install[i]).pkg,
                dep,
                env.nover(),
            );
        assert(b.install[i].pkg == a.install[i].pkg);
    }
    if is_missing(a.missing, dep.text) {
        let i = choose|i: int| 0 <= i < a.missing.len() && (#[trigger] a.missing[i]).dep == dep.text;
        assert(b.missing[i] == a.missing[i]);
    }
}

/// Only what is known of repo packages changes, and it grows.
spec fn repo_frame<'a>(st: St<'a>, r: St<'a>) -> bool {
    &&& grows(st, r)
    &&& r == (St { missing: r.missing, install: r.install, seen: r.seen, ..st })
    &&& forall|n: Seq<char>| #[trigger]
        r.seen.contains(n) ==> st.seen.contains(n) || installs(r.install, n)
    &&& forall|i: int|
        st.install.len() <= i < r.install.len() ==> !st.seen.contains(
            (#[trigger] r.install[i]).pkg.name@,
        )
}

/// Changes of repo packages go on.
proof fn lemma_repo_frame<'a>(a: St<'a>, b: St<'a>, c: St<'a>)
    requires
        repo_frame(a, b),
        repo_frame(b, c),
    ensures
        repo_frame(a, c),
{
    lemma_grows(a, b, c);
    assert forall|n: Seq<char>| #[trigger] c.seen.contains(n) implies a.seen.contains(n)
        || installs(c.install, n) by {
        if b.seen.contains(n) && !a.seen.contains(n) {
            let i = choose|i: int|
                0 <= i < b.install.len() && (#[trigger] b.install[i]).pkg.name@ == n;
            assert(c.install[i].pkg == b.install[i].pkg);
        }
    }
    assert forall|i: int| a.install.len() <= i < c.install.len() implies !a.seen.contains(
        (#[trigger] c.install[i]).pkg.name@,
    ) by {
        if i < b.install.len() {
            assert(c.install[i].pkg == b.install[i].pkg);
        }
    }
}

/// Installing a repo package.
proof fn lemma_repo_pkg<'a>(
    env: Env<'a>,
    depth: nat,
    st: St<'a>,
    pkg: &'a AlpmPkg,
    target: bool,
    make: bool,
)
    requires
        alpm::valid(env.m),
        depth >= tree::repo_bound(env, st.seen, *pkg),
        install_ok(st),
        !env.flags.has(Flags::NO_DEPS) ==> install_closed(env, st),
    ensures
        ({
            let r = tree::repo_pkg(env, depth, st, pkg, target, make);
            &&& repo_frame(st, r)
            &&& install_ok(r)
            &&& !env.flags.has(Flags::NO_DEPS) ==> install_closed(env, r)
            &&& r.seen.contains(pkg.name@)
        }),
    decreases depth, 2nat, 0nat,
{
    let r = tree::repo_pkg(env, depth, st, pkg, target, make);
    let name = pkg.name@;
    if !st.seen.contains(name) {
        let s1 = St { seen: st.seen.insert(name), ..st };
        let deps = depend::deps(pkg.depends@);
        let s2 = if env.flags.has(Flags::NO_DEPS) {
            s1
        } else {
            tree::repo_deps(env, depth, s1, deps)
        };
        tree::lemma_repo_bound(env, st.seen, *pkg);
        assert(grows(st, s1));
        if !env.flags.has(Flags::NO_DEPS) {
            assert forall|i: int, j: int|
                0 <= i < s1.install.len() && 0 <= j < s1.install[i].pkg.depends@.len() implies
                repo_dealt(env, s1, #[trigger] s1.install[i].pkg.depends@[j]@) by {
                lemma_repo_dealt(env, st, s1, st.install[i].pkg.depends@[j]@);
            }
            lemma_repo_deps(env, depth, s1, deps);
        }
        assert(repo_frame(s1, s2));
        assert(r == s2.add_install(Package { pkg, make, target }));
        let n = s2.install.len() as int;
        assert(r.install[n].pkg == pkg);
        assert(forall|i: int| 0 <= i < n ==> r.install[i] == s2.install[i]);
        assert(grows(s2, r));
        lemma_grows(st, s1, s2);
        lemma_grows(st, s2, r);
        assert forall|i: int| 0 <= i < n implies (#[trigger] s2.install[i]).pkg.name@ != name by {
            if i < st.install.len() {
                assert(s2.install[i].pkg == st.install[i].pkg);
                assert(st.seen.contains(st.install[i].pkg.name@));
            } else {
                assert(!s1.seen.contains(s2.install[i].pkg.name@));
            }
        }
        assert forall|m: Seq<char>| #[trigger] r.seen.contains(m) implies st.seen.contains(m)
            || installs(r.install, m) by {
            if m == name {
                assert(r.install[n].pkg.name@ == name);
            } else if !st.seen.contains(m) {
                assert(s2.seen.contains(m));
                let i = choose|i: int|
                    0 <= i < s2.install.len() && (#[trigger] s2.install[i]).pkg.name@ == m;
                assert(r.install[i] == s2.install[i]);
            }
        }
        assert forall|i: int| st.install.len() <= i < r.install.len() implies !st.seen.contains(
            (#[trigger] r.install[i]).pkg.name@,
        ) by {
            if i < n {
                assert(!s1.seen.contains(s2.install[i].pkg.name@));
            }
        }
        if !env.flags.has(Flags::NO_DEPS) {
            assert forall|i: int, j: int|
                0 <= i < r.install.len() && 0 <= j < r.install[i].pkg.depends@.len() implies
                repo_dealt(env, r, #[trigger] r.install[i].pkg.depends@[j]@) by {
                let dep = r.install[i].pkg.depends@[j]@;
                if i < n {
                    assert(repo_dealt(env, s2, s2.install[i].pkg.depends@[j]@));
                } else {
                    assert(deps[j] == dep);
                    assert(repo_dealt(env, s2, deps[j]));
                }
                lemma_repo_dealt(env, s2, r, dep);
            }
        }
    }
}

/// Installing what the dependencies of a repo package need.
proof fn lemma_repo_deps<'a>(env: Env<'a>, depth: nat, st: St<'a>, deps: Seq<DependV>)
    requires
        alpm::valid(env.m),
        depth > seqs::left(tree::sync_names(env.m.system), st.seen),
        install_ok(st),
        install_closed(env, st),
        !env.flags.has(Flags::NO_DEPS),
    ensures
        ({
            let r = tree::repo_deps(env, depth, st, deps);
            &&& repo_frame(st, r)
            &&& install_ok(r)
            &&& install_closed(env, r)
            &&& forall|j: int| 0 <= j < deps.len() ==> repo_dealt(env, r, #[trigger] deps[j])
        }),
    decreases depth, 1nat, deps.len(),
{
    if deps.len() > 0 {
        let s = tree::repo_dep(env, depth, st, deps[0]);
        let r = tree::repo_deps(env, depth, st, deps);
        lemma_repo_dep(env, depth, st, deps[0]);
        seqs::lemma_left_mono(tree::sync_names(env.m.system), st.seen, s.seen);
        lemma_repo_deps(env, depth, s, deps.drop_first());
        lemma_repo_frame(st, s, r);
        assert forall|j: int| 0 <= j < deps.len() implies repo_dealt(env, r, #[trigger] deps[j]) by {
            if j == 0 {
                lemma_repo_dealt(env, s, r, deps[0]);
            } else {
                assert(deps.drop_first()[j - 1] == deps[j]);
            }
        }
    }
}

/// Installing what one dependency of a repo package needs.
proof fn lemma_repo_dep<'a>(env: Env<'a>, depth: nat, st: St<'a>, dep: DependV)
    requires
        alpm::valid(env.m),
        depth > seqs::left(tree::sync_names(env.m.system), st.seen),
        install_ok(st),
        install_closed(env, st),
        !env.flags.has(Flags::NO_DEPS),
    ensures
        ({
            let r = tree::repo_dep(env, depth, st, dep);
            &&& repo_frame(st, r)
            &&& install_ok(r)
            &&& install_closed(env, r)
            &&& repo_dealt(env, r, dep)
        }),
    decreases depth, 0nat, 0nat,
{
    let r = tree::repo_dep(env, depth, st, dep);
    if env.sat_install(st.install, dep) || env.sat_local(dep) || env.assumed(dep) {
    } else {
        match env.repo_sat(dep.text) {
            Some(p) => {
                let s1 = st.push(p.name@, dep.text);
                let e = (depth - 1) as nat;
                assert(grows(st, s1));
                assert forall|i: int, j: int|
                    0 <= i < s1.install.len() && 0 <= j < s1.install[i].pkg.depends@.len() implies
                    repo_dealt(env, s1, #[trigger] s1.install[i].pkg.depends@[j]@) by {
                    lemma_repo_dealt(env, st, s1, st.install[i].pkg.depends@[j]@);
                }
                lemma_repo_pkg(env, e, s1, &p, false, true);
                let s2 = tree::repo_pkg(env, e, s1, &p, false, true);
                assert(r == s2.pop());
                assert(r.stack =~= st.stack);
                assert(grows(s1, s2));
                assert(grows(st, r));
                assert forall|i: int, j: int|
                    0 <= i < r.install.len() && 0 <= j < r.install[i].pkg.depends@.len() implies
                    repo_dealt(env, r, #[trigger] r.install[i].pkg.depends@[j]@) by {
                    assert(repo_dealt(env, s2, s2.install[i].pkg.depends@[j]@));
                }
            },
            None => {
                assert(r.missing[st.missing.len() as int].dep == dep.text);
                assert(grows(st, r));
                assert forall|i: int, j: int|
                    0 <= i < r.install.len() && 0 <= j < r.install[i].pkg.depends@.len() implies
                    repo_dealt(env, r, #[trigger] r.install[i].pkg.depends@[j]@) by {
                    lemma_repo_dealt(env, st, r, st.install[i].pkg.depends@[j]@);
                }
            },
        }
    }
}

/// The dependency has been answered: it is met, it is missing, or the repo package that libalpm
/// finds for it is being dealt with.
spec fn answered<'a>(env: Env<'a>, st: St<'a>, dep: DependV) -> bool {
    ||| repo_dealt(env, st, dep) && (only_local(env, dep) ==> env.assumed(dep) || env.sat_install(
        st.install,
        dep,
    ) || is_missing(st.missing, dep.text))
    ||| met_by_build(env, st.build, dep)
}

/// That an installed package meets the dependency does not count: packages are to be built even so,
/// and there is no sync package that would do.
pub open spec fn only_local<'a>(env: Env<'a>, dep: DependV) -> bool {
    env.flags.has(Flags::RESOLVE_SATISFIED_PKGBUILDS) && env.repo_sat(dep.text) is None
}

/// The dependency of a package that is built is met, or has been dealt with.
spec fn dealt<'a>(env: Env<'a>, st: St<'a>, need: Seq<char>) -> bool {
    let dep = (env.m.depend)(need);
    ||| env.assumed(dep)
    ||| env.sat_build(st.build, dep)
    ||| env.sat_install(st.install, dep)
    ||| st.resolved.contains(dep.text)
}

/// Each of the dependencies is met, or has been dealt with.
spec fn all_dealt<'a>(env: Env<'a>, st: St<'a>, needs: Seq<Seq<char>>) -> bool {
    forall|i: int| 0 <= i < needs.len() ==> dealt(env, st, #[trigger] needs[i])
}

/// What each package of the .SRCINFO needs to be built.
spec fn base_needs<'a>(env: Env<'a>, srcinfo: &'a Srcinfo) -> Seq<Seq<char>> {
    pkg::active(srcinfo.base.makedepends@, Some(env.arch())) + (if env.flags.has(
        Flags::CHECK_DEPENDS,
    ) {
        pkg::active(srcinfo.base.checkdepends@, Some(env.arch()))
    } else {
        Seq::empty()
    })
}

/// What the package needs to run.
spec fn run_needs<'a>(env: Env<'a>, p: SrcinfoPkg) -> Seq<Seq<char>> {
    pkg::active(p.depends@, Some(env.arch()))
}

/// Each dependency of each package of the base is met, or has been dealt with.
spec fn base_closed<'a>(env: Env<'a>, st: St<'a>, base: BaseV<'a>) -> bool {
    match base {
        BaseV::Aur { pkgs, .. } => forall|k: int|
            0 <= k < pkgs.len() ==> all_dealt(
                env,
                st,
                env.needs(AurOrPkgbuild::Aur(&*(#[trigger] pkgs[k]).pkg)),
            ),
        BaseV::Pkgbuild { srcinfo, pkgs, .. } => {
            &&& all_dealt(env, st, base_needs(env, srcinfo))
            &&& forall|k: int|
                0 <= k < pkgs.len() ==> all_dealt(
                    env,
                    st,
                    run_needs(env, *(#[trigger] pkgs[k]).pkg),
                )
        },
    }
}

/// Each dependency of each package that is to be built is met, or has been dealt with.
spec fn build_closed<'a>(env: Env<'a>, st: St<'a>) -> bool {
    forall|b: int| 0 <= b < st.build.len() ==> base_closed(env, st, #[trigger] st.build[b])
}

/// Each dependency that has been dealt with has been answered, but for those in `open`, which are
/// being dealt with.
spec fn resolved_ok<'a>(env: Env<'a>, st: St<'a>, open: Set<Seq<char>>) -> bool {
    forall|need: Seq<char>|
        st.resolved.contains((#[trigger] (env.m.depend)(need)).text) ==> open.contains(
            (env.m.depend)(need).text,
        ) || answered(env, st, (env.m.depend)(need))
}

/// What is to be built and is no AUR package comes from a repo.
spec fn from_repos<'a>(env: Env<'a>, build: Seq<BaseV<'a>>) -> bool {
    forall|b: int|
        0 <= b < build.len() && (#[trigger] build[b]) is Pkgbuild ==> choice::in_repos(
            env.repos,
            build[b]->Pkgbuild_srcinfo,
        )
}

/// What holds while dependencies are followed.
spec fn tree_ok<'a>(env: Env<'a>, st: St<'a>, open: Set<Seq<char>>) -> bool {
    &&& install_ok(st)
    &&& install_closed(env, st)
    &&& bases_ok(st.build)
    &&& from_repos(env, st.build)
    &&& build_closed(env, st)
    &&& resolved_ok(env, st, open)
}

/// A dependency that an AUR package meets is met once the package is to be built.
proof fn lemma_aur_sat<'a>(env: Env<'a>, st: St<'a>, p: AurPackage, dep: DependV)
    requires
        satisfies::aur_ok(env.m, *p.pkg, dep, env.nover()),
    ensures
        env.sat_build(st.add_aur(p).build, dep),
{
    let new = st.add_aur(p).build;
    let pkgs = new.last()->Aur_pkgs;
    assert(pkgs[pkgs.len() - 1] == p);
    assert(env.sat_base(new[new.len() - 1], dep));
}

/// A dependency that a package of a pkgbuild repo meets is met once the package is to be built.
proof fn lemma_pkgbuild_sat<'a>(
    env: Env<'a>,
    st: St<'a>,
    repo: Seq<char>,
    s: &'a Srcinfo,
    p: Pkgbuild<'a>,
    dep: DependV,
)
    requires
        satisfies::srcinfo_ok(env.m, *s, *p.pkg, dep, env.nover()),
        from_repos(env, st.build),
        choice::in_repos(env.repos, s),
        choice::distinct_bases(env.repos),
    ensures
        env.sat_build(st.add_pkgbuild(repo, s, p).build, dep),
{
    let new = st.add_pkgbuild(repo, s, p).build;
    let n = st.build.len() as int;
    if n > 0 && st.build.last() is Pkgbuild && st.build.last().name() == s.base.pkgbase@ {
        assert(choice::in_repos(env.repos, st.build[n - 1]->Pkgbuild_srcinfo));
    }
    let pkgs = new.last()->Pkgbuild_pkgs;
    assert(pkgs[pkgs.len() - 1] == p);
    assert(env.sat_base(new[new.len() - 1], dep));
}

/// What is built goes on being built.
proof fn lemma_builds<'a>(a: St<'a>, b: St<'a>, name: Seq<char>)
    requires
        grows(a, b),
        targets::builds(a.build, name),
    ensures
        targets::builds(b.build, name),
{
    let i = choose|i: int| 0 <= i < a.build.len() && (#[trigger] a.build[i]).names().contains(name);
    assert(base_grows(a.build[i], b.build[i]));
    let x = a.build[i].names();
    let y = b.build[i].names();
    let k = choose|k: int| 0 <= k < x.len() && x[k] == name;
    assert(y[k] == name);
}

/// What is met by a package that is to be built goes on being met.
proof fn lemma_sat_build<'a>(env: Env<'a>, a: St<'a>, b: St<'a>, dep: DependV)
    requires
        grows(a, b),
        env.sat_build(a.build, dep),
    ensures
        env.sat_build(b.build, dep),
{
    let i = choose|i: int| 0 <= i < a.build.len() && env.sat_base(#[trigger] a.build[i], dep);
    assert(base_grows(a.build[i], b.build[i]));
    match (a.build[i], b.build[i]) {
        (BaseV::Aur { pkgs: p, .. }, BaseV::Aur { pkgs: q, .. }) => {
            let k = choose|k: int|
                0 <= k < p.len() && satisfies::aur_ok(
                    env.m,
                    *(#[trigger] p[k]).pkg,
                    dep,
                    env.nover(),
                );
            assert(q[k].pkg == p[k].pkg);
        },
        (BaseV::Pkgbuild { srcinfo, pkgs: p, .. }, BaseV::Pkgbuild { pkgs: q, .. }) => {
            let k = choose|k: int|
                0 <= k < p.len() && satisfies::srcinfo_ok(
                    env.m,
                    *srcinfo,
                    *(#[trigger] p[k]).pkg,
                    dep,
                    env.nover(),
                );
            assert(q[k].pkg == p[k].pkg);
        },
        _ => {},
    }
    assert(env.sat_base(b.build[i], dep));
}

/// What is met by a package that is to be built goes on being so, or a package with the name of what
/// is picked goes on being built.
proof fn lemma_met_by_build<'a>(env: Env<'a>, a: St<'a>, b: St<'a>, dep: DependV)
    requires
        grows(a, b),
        met_by_build(env, a.build, dep),
    ensures
        met_by_build(env, b.build, dep),
{
    if env.sat_build(a.build, dep) {
        lemma_sat_build(env, a, b, dep);
    } else if env.pkgbuild_dep(None, dep) is Some && targets::builds(
        a.build,
        (env.pkgbuild_dep(None, dep)->0).2.pkgname@,
    ) {
        lemma_builds(a, b, (env.pkgbuild_dep(None, dep)->0).2.pkgname@);
    } else {
        lemma_builds(a, b, (env.select_aur(dep, false)->0).name@);
    }
}

/// What has been answered stays so.
proof fn lemma_answered<'a>(env: Env<'a>, a: St<'a>, b: St<'a>, dep: DependV)
    requires
        grows(a, b),
        answered(env, a, dep),
    ensures
        answered(env, b, dep),
{
    if repo_dealt(env, a, dep) {
        lemma_repo_dealt(env, a, b, dep);
    }
    if met_by_build(env, a.build, dep) {
        lemma_met_by_build(env, a, b, dep);
    }
}

/// What has been dealt with stays so.
proof fn lemma_all_dealt<'a>(env: Env<'a>, a: St<'a>, b: St<'a>, needs: Seq<Seq<char>>)
    requires
        grows(a, b),
        all_dealt(env, a, needs),
    ensures
        all_dealt(env, b, needs),
{
    assert forall|i: int| 0 <= i < needs.len() implies dealt(env, b, #[trigger] needs[i]) by {
        let dep = (env.m.depend)(needs[i]);
        assert(dealt(env, a, needs[i]));
        if env.sat_build(a.build, dep) {
            lemma_sat_build(env, a, b, dep);
        }
        if env.sat_install(a.install, dep) {
            let k = choose|k: int|
                0 <= k < a.install.len() && satisfies::alpm_ok(
                    env.m,
                    *(#[trigger] a.install[k]).pkg,
                    dep,
                    env.nover(),
                );
            assert(b.install[k].pkg == a.install[k].pkg);
        }
    }
}

/// A base of which all has been dealt with stays so.
proof fn lemma_base_closed<'a>(env: Env<'a>, a: St<'a>, b: St<'a>, base: BaseV<'a>)
    requires
        grows(a, b),
        base_closed(env, a, base),
    ensures
        base_closed(env, b, base),
{
    match base {
        BaseV::Aur { pkgs, .. } => {
            assert forall|k: int| 0 <= k < pkgs.len() implies all_dealt(
                env,
                b,
                env.needs(AurOrPkgbuild::Aur(&*(#[trigger] pkgs[k]).pkg)),
            ) by {
                lemma_all_dealt(env, a, b, env.needs(AurOrPkgbuild::Aur(&*pkgs[k].pkg)));
            }
        },
        BaseV::Pkgbuild { srcinfo, pkgs, .. } => {
            lemma_all_dealt(env, a, b, base_needs(env, srcinfo));
            assert forall|k: int| 0 <= k < pkgs.len() implies all_dealt(
                env,
                b,
                run_needs(env, *(#[trigger] pkgs[k]).pkg),
            ) by {
                lemma_all_dealt(env, a, b, run_needs(env, *pkgs[k].pkg));
            }
        },
    }
}

/// What holds of installs, given that no build changed.
proof fn lemma_tree_install<'a>(env: Env<'a>, a: St<'a>, b: St<'a>, open: Set<Seq<char>>)
    requires
        tree_ok(env, a, open),
        grows(a, b),
        b.build == a.build,
        b.resolved == a.resolved,
        install_ok(b),
        install_closed(env, b),
    ensures
        tree_ok(env, b, open),
{
    assert forall|k: int| 0 <= k < b.build.len() implies base_closed(
        env,
        b,
        #[trigger] b.build[k],
    ) by {
        assert(base_closed(env, a, a.build[k]));
        lemma_base_closed(env, a, b, a.build[k]);
    }
    assert forall|need: Seq<char>|
        b.resolved.contains((#[trigger] (env.m.depend)(need)).text) implies open.contains(
        (env.m.depend)(need).text,
    ) || answered(env, b, (env.m.depend)(need)) by {
        if !open.contains((env.m.depend)(need).text) {
            lemma_answered(env, a, b, (env.m.depend)(need));
        }
    }
}

/// A state that differs in its path, its targets and in what is up to date only.
proof fn lemma_tree_same<'a>(env: Env<'a>, a: St<'a>, b: St<'a>, open: Set<Seq<char>>)
    requires
        tree_ok(env, a, open),
        grows(a, b),
        b.build == a.build,
        b.resolved == a.resolved,
        b.install == a.install,
        b.seen == a.seen,
    ensures
        tree_ok(env, b, open),
{
    assert forall|i: int, j: int|
        0 <= i < b.install.len() && 0 <= j < b.install[i].pkg.depends@.len() implies repo_dealt(
        env,
        b,
        #[trigger] b.install[i].pkg.depends@[j]@,
    ) by {
        lemma_repo_dealt(env, a, b, a.install[i].pkg.depends@[j]@);
    }
    lemma_tree_install(env, a, b, open);
}

/// A dependency starts being dealt with.
proof fn lemma_tree_open<'a>(env: Env<'a>, st: St<'a>, open: Set<Seq<char>>, dep: Seq<char>)
    requires
        tree_ok(env, st, open),
    ensures
        grows(st, st.resolve(dep)),
        tree_ok(env, st.resolve(dep), open.insert(dep)),
{
    let b = st.resolve(dep);
    assert(grows(st, b));
    assert forall|i: int, j: int|
        0 <= i < b.install.len() && 0 <= j < b.install[i].pkg.depends@.len() implies repo_dealt(
        env,
        b,
        #[trigger] b.install[i].pkg.depends@[j]@,
    ) by {
        lemma_repo_dealt(env, st, b, st.install[i].pkg.depends@[j]@);
    }
    assert forall|k: int| 0 <= k < b.build.len() implies base_closed(
        env,
        b,
        #[trigger] b.build[k],
    ) by {
        assert(base_closed(env, st, st.build[k]));
        lemma_base_closed(env, st, b, st.build[k]);
    }
    assert forall|need: Seq<char>|
        b.resolved.contains((#[trigger] (env.m.depend)(need)).text) implies open.insert(
        dep,
    ).contains((env.m.depend)(need).text) || answered(env, b, (env.m.depend)(need)) by {
        let x = (env.m.depend)(need);
        if x.text != dep && !open.contains(x.text) {
            lemma_answered(env, st, b, x);
        }
    }
}

/// A dependency has been dealt with once it has been answered.
proof fn lemma_tree_close<'a>(env: Env<'a>, st: St<'a>, open: Set<Seq<char>>, need: Seq<char>)
    requires
        alpm::valid(env.m),
        tree_ok(env, st, open.insert((env.m.depend)(need).text)),
        answered(env, st, (env.m.depend)(need)),
    ensures
        tree_ok(env, st, open),
{
    let dep = (env.m.depend)(need);
    assert forall|n: Seq<char>|
        st.resolved.contains((#[trigger] (env.m.depend)(n)).text) implies open.contains(
        (env.m.depend)(n).text,
    ) || answered(env, st, (env.m.depend)(n)) by {
        if (env.m.depend)(n).text == dep.text {
            assert((env.m.depend)((env.m.depend)(n).text) == (env.m.depend)(n));
            assert((env.m.depend)(dep.text) == dep);
        }
    }
}

/// An AUR package is to be built, what it depends on having been dealt with.
proof fn lemma_tree_aur<'a>(env: Env<'a>, st: St<'a>, open: Set<Seq<char>>, p: AurPackage)
    requires
        tree_ok(env, st, open),
        all_dealt(env, st, env.needs(AurOrPkgbuild::Aur(&*p.pkg))),
    ensures
        tree_ok(env, st.add_aur(p), open),
{
    let b = st.add_aur(p);
    lemma_add_aur(st, p);
    assert forall|k: int| 0 <= k < b.build.len() && (#[trigger] b.build[k]) is Pkgbuild implies
        choice::in_repos(env.repos, b.build[k]->Pkgbuild_srcinfo) by {
        assert(b.build[k] == st.build[k]);
    }
    assert forall|i: int, j: int|
        0 <= i < b.install.len() && 0 <= j < b.install[i].pkg.depends@.len() implies repo_dealt(
        env,
        b,
        #[trigger] b.install[i].pkg.depends@[j]@,
    ) by {
        lemma_repo_dealt(env, st, b, st.install[i].pkg.depends@[j]@);
    }
    lemma_all_dealt(env, st, b, env.needs(AurOrPkgbuild::Aur(&*p.pkg)));
    assert forall|k: int| 0 <= k < b.build.len() implies base_closed(
        env,
        b,
        #[trigger] b.build[k],
    ) by {
        if k < st.build.len() {
            assert(base_closed(env, st, st.build[k]));
            lemma_base_closed(env, st, b, st.build[k]);
        }
        if b.build[k] is Aur && k == b.build.len() - 1 {
            let pkgs = b.build[k]->Aur_pkgs;
            assert forall|l: int| 0 <= l < pkgs.len() implies all_dealt(
                env,
                b,
                env.needs(AurOrPkgbuild::Aur(&*(#[trigger] pkgs[l]).pkg)),
            ) by {
                if l < pkgs.len() - 1 {
                    assert(pkgs[l] == st.build[k]->Aur_pkgs[l]);
                } else {
                    assert(pkgs[l] == p);
                }
            }
        }
    }
    assert forall|need: Seq<char>|
        b.resolved.contains((#[trigger] (env.m.depend)(need)).text) implies open.contains(
        (env.m.depend)(need).text,
    ) || answered(env, b, (env.m.depend)(need)) by {
        if !open.contains((env.m.depend)(need).text) {
            lemma_answered(env, st, b, (env.m.depend)(need));
        }
    }
}

/// What a package of a pkgbuild repo needs is what its base needs and what it needs itself.
proof fn lemma_pkgbuild_needs<'a>(env: Env<'a>, st: St<'a>, s: &'a Srcinfo, p: &'a SrcinfoPkg)
    ensures
        env.needs(AurOrPkgbuild::Pkgbuild(s, p)) == base_needs(env, s) + run_needs(env, *p),
        all_dealt(env, st, env.needs(AurOrPkgbuild::Pkgbuild(s, p))) == (all_dealt(
            env,
            st,
            base_needs(env, s),
        ) && all_dealt(env, st, run_needs(env, *p))),
{
    let a = base_needs(env, s);
    let b = run_needs(env, *p);
    let all = env.needs(AurOrPkgbuild::Pkgbuild(s, p));
    assert(all =~= a + b);
    if all_dealt(env, st, all) {
        assert forall|i: int| 0 <= i < a.len() implies dealt(env, st, #[trigger] a[i]) by {
            assert(all[i] == a[i]);
        }
        assert forall|i: int| 0 <= i < b.len() implies dealt(env, st, #[trigger] b[i]) by {
            assert(all[a.len() + i] == b[i]);
        }
    }
    if all_dealt(env, st, a) && all_dealt(env, st, b) {
        assert forall|i: int| 0 <= i < all.len() implies dealt(env, st, #[trigger] all[i]) by {
            if i < a.len() {
                assert(all[i] == a[i]);
            } else {
                assert(all[i] == b[i - a.len()]);
            }
        }
    }
}

/// A package of a pkgbuild repo is to be built, what it depends on having been dealt with.
proof fn lemma_tree_pkgbuild<'a>(
    env: Env<'a>,
    st: St<'a>,
    open: Set<Seq<char>>,
    repo: Seq<char>,
    s: &'a Srcinfo,
    p: Pkgbuild<'a>,
)
    requires
        tree_ok(env, st, open),
        choice::in_repos(env.repos, s),
        all_dealt(env, st, env.needs(AurOrPkgbuild::Pkgbuild(s, p.pkg))),
    ensures
        tree_ok(env, st.add_pkgbuild(repo, s, p), open),
{
    let b = st.add_pkgbuild(repo, s, p);
    assert forall|k: int| 0 <= k < b.build.len() && (#[trigger] b.build[k]) is Pkgbuild implies
        choice::in_repos(env.repos, b.build[k]->Pkgbuild_srcinfo) by {
        if k < st.build.len() {
            assert(st.build[k] is Pkgbuild);
        }
    }
    lemma_add_pkgbuild(st, repo, s, p);
    assert forall|i: int, j: int|
        0 <= i < b.install.len() && 0 <= j < b.install[i].pkg.depends@.len() implies repo_dealt(
        env,
        b,
        #[trigger] b.install[i].pkg.depends@[j]@,
    ) by {
        lemma_repo_dealt(env, st, b, st.install[i].pkg.depends@[j]@);
    }
    lemma_pkgbuild_needs(env, st, s, p.pkg);
    lemma_all_dealt(env, st, b, base_needs(env, s));
    lemma_all_dealt(env, st, b, run_needs(env, *p.pkg));
    assert forall|k: int| 0 <= k < b.build.len() implies base_closed(
        env,
        b,
        #[trigger] b.build[k],
    ) by {
        if k < st.build.len() {
            assert(base_closed(env, st, st.build[k]));
            lemma_base_closed(env, st, b, st.build[k]);
        }
        if b.build[k] is Pkgbuild && k == b.build.len() - 1 {
            let pkgs = b.build[k]->Pkgbuild_pkgs;
            assert forall|l: int| 0 <= l < pkgs.len() implies all_dealt(
                env,
                b,
                run_needs(env, *(#[trigger] pkgs[l]).pkg),
            ) by {
                if l < pkgs.len() - 1 {
                    assert(pkgs[l] == st.build[k]->Pkgbuild_pkgs[l]);
                } else {
                    assert(pkgs[l] == p);
                }
            }
        }
    }
    assert forall|need: Seq<char>|
        b.resolved.contains((#[trigger] (env.m.depend)(need)).text) implies open.contains(
        (env.m.depend)(need).text,
    ) || answered(env, b, (env.m.depend)(need)) by {
        if !open.contains((env.m.depend)(need).text) {
            lemma_answered(env, st, b, (env.m.depend)(need));
        }
    }
}

/// Following dependencies: the state grows, the path is what it was, and each repo package that was
/// dealt with is to be installed.
spec fn tree_frame<'a>(st: St<'a>, r: St<'a>) -> bool {
    &&& grows(st, r)
    &&& r.stack == st.stack
    &&& r.seen_target == st.seen_target
    &&& r.unneeded == st.unneeded
    &&& forall|n: Seq<char>| #[trigger]
        r.seen.contains(n) ==> st.seen.contains(n) || installs(r.install, n)
}

/// Following dependencies goes on.
proof fn lemma_tree_frame<'a>(a: St<'a>, b: St<'a>, c: St<'a>)
    requires
        tree_frame(a, b),
        tree_frame(b, c),
    ensures
        tree_frame(a, c),
{
    lemma_grows(a, b, c);
    assert forall|n: Seq<char>| #[trigger] c.seen.contains(n) implies a.seen.contains(n)
        || installs(c.install, n) by {
        if b.seen.contains(n) && !a.seen.contains(n) {
            let i = choose|i: int|
                0 <= i < b.install.len() && (#[trigger] b.install[i]).pkg.name@ == n;
            assert(c.install[i].pkg == b.install[i].pkg);
        }
    }
}

/// Building what a package depends on.
proof fn lemma_pkg_deps<'a>(
    env: Env<'a>,
    depth: nat,
    st: St<'a>,
    targs: Seq<Seq<char>>,
    who: AurOrPkgbuild<'_>,
    make: bool,
    open: Set<Seq<char>>,
)
    requires
        alpm::valid(env.m),
        !env.flags.has(Flags::NO_DEPS),
        depth >= seqs::left(env.all_texts(), st.resolved),
        env.known(who),
        tree_ok(env, st, open),
    ensures
        ({
            let r = aur_tree::pkg_deps(env, depth, st, targs, who, make);
            &&& tree_frame(st, r)
            &&& tree_ok(env, r, open)
            &&& all_dealt(env, r, env.needs(who))
        }),
    decreases depth, 2nat, 0nat,
{
    lemma_aur_deps(env, depth, st, targs, env.needs(who), env.makes(who, make), open);
}

/// Building what each of the dependencies needs.
proof fn lemma_aur_deps<'a>(
    env: Env<'a>,
    depth: nat,
    st: St<'a>,
    targs: Seq<Seq<char>>,
    needs: Seq<Seq<char>>,
    make: spec_fn(Seq<char>) -> bool,
    open: Set<Seq<char>>,
)
    requires
        alpm::valid(env.m),
        !env.flags.has(Flags::NO_DEPS),
        depth >= seqs::left(env.all_texts(), st.resolved),
        forall|i: int|
            0 <= i < needs.len() ==> env.all_texts().contains(
                (env.m.depend)(#[trigger] needs[i]).text,
            ),
        tree_ok(env, st, open),
    ensures
        ({
            let r = aur_tree::aur_deps(env, depth, st, targs, needs, make);
            &&& tree_frame(st, r)
            &&& tree_ok(env, r, open)
            &&& all_dealt(env, r, needs)
        }),
    decreases depth, 1nat, needs.len(),
{
    if needs.len() > 0 {
        let s = aur_tree::aur_dep(env, depth, st, targs, needs[0], make(needs[0]));
        let r = aur_tree::aur_deps(env, depth, st, targs, needs, make);
        let rest = needs.drop_first();
        lemma_aur_dep(env, depth, st, targs, needs[0], make(needs[0]), open);
        seqs::lemma_left_mono(env.all_texts(), st.resolved, s.resolved);
        assert forall|i: int| 0 <= i < rest.len() implies env.all_texts().contains(
            (env.m.depend)(#[trigger] rest[i]).text,
        ) by {
            assert(rest[i] == needs[i + 1]);
        }
        lemma_aur_deps(env, depth, s, targs, rest, make, open);
        lemma_tree_frame(st, s, r);
        lemma_all_dealt(env, s, r, seq![needs[0]]);
        assert forall|i: int| 0 <= i < needs.len() implies dealt(env, r, #[trigger] needs[i]) by {
            if i == 0 {
                assert(dealt(env, r, seq![needs[0]][0]));
            } else {
                assert(rest[i - 1] == needs[i]);
            }
        }
    }
}

/// Building what one dependency needs.
proof fn lemma_aur_dep<'a>(
    env: Env<'a>,
    depth: nat,
    st: St<'a>,
    targs: Seq<Seq<char>>,
    need: Seq<char>,
    make: bool,
    open: Set<Seq<char>>,
)
    requires
        alpm::valid(env.m),
        !env.flags.has(Flags::NO_DEPS),
        depth >= seqs::left(env.all_texts(), st.resolved),
        env.all_texts().contains((env.m.depend)(need).text),
        tree_ok(env, st, open),
    ensures
        ({
            let r = aur_tree::aur_dep(env, depth, st, targs, need, make);
            &&& tree_frame(st, r)
            &&& tree_ok(env, r, open)
            &&& all_dealt(env, r, seq![need])
        }),
    decreases depth, 0nat, 0nat,
{
    let dep = (env.m.depend)(need);
    let r = aur_tree::aur_dep(env, depth, st, targs, need, make);
    if env.assumed(dep) || env.sat_build(st.build, dep) || st.resolved.contains(dep.text)
        || env.sat_install(st.install, dep) {
        assert(dealt(env, r, need));
    } else {
        let s1 = st.resolve(dep.text);
        let more = open.insert(dep.text);
        let is_targ = env.is_aur_targ(st.seen_target, targs, dep);
        lemma_tree_open(env, st, open, dep.text);
        seqs::lemma_left_insert(env.all_texts(), st.resolved, dep.text);
        if !is_targ && !env.flags.has(Flags::RESOLVE_SATISFIED_PKGBUILDS) && env.sat_local(dep) {
            lemma_tree_close(env, r, open, need);
        } else if !is_targ && env.repo_sat(dep.text) is Some {
            let p = env.repo_sat(dep.text)->0;
            if !env.sat_local(dep) {
                let d = tree::repo_depth(env);
                let s2 = s1.push(p.name@, dep.text);
                let s3 = tree::repo_pkg(env, d, s2, &p, false, true);
                seqs::lemma_left_len(tree::sync_names(env.m.system), s2.seen);
                assert(grows(s1, s2));
                lemma_tree_same(env, s1, s2, more);
                lemma_repo_pkg(env, d, s2, &p, false, true);
                lemma_tree_install(env, s2, s3, more);
                assert(r == s3.pop());
                assert(r.stack =~= st.stack);
                assert(grows(s3, r));
                lemma_tree_same(env, s3, r, more);
                lemma_grows(st, s1, s2);
                lemma_grows(st, s2, s3);
                lemma_grows(st, s3, r);
                assert(repo_dealt(env, r, dep));
            }
            lemma_tree_close(env, r, open, need);
        } else if env.skip_aur(dep, is_targ) {
            lemma_tree_close(env, r, open, need);
        } else {
            match env.pkgbuild_dep(None, dep) {
                Some((repo, srcinfo, p)) => {
                    let e = (depth - 1) as nat;
                    let who = AurOrPkgbuild::Pkgbuild(srcinfo, p);
                    let s2 = s1.push(p.pkgname@, dep.text);
                    let s3 = aur_tree::pkg_deps(env, e, s2, targs, who, true);
                    let s4 = s3.pop();
                    let q = Package { pkg: p, make, target: false };
                    let k = aur_tree::lemma_pkgbuild_dep(env, env.repos, None, dep);
                    aur_tree::lemma_known_pkgbuild(env, k, srcinfo, p);
                    assert(choice::in_repos(env.repos, srcinfo));
                    assert(grows(s1, s2));
                    lemma_tree_same(env, s1, s2, more);
                    lemma_pkg_deps(env, e, s2, targs, who, true, more);
                    assert(s4.stack =~= st.stack);
                    assert(grows(s3, s4));
                    lemma_tree_same(env, s3, s4, more);
                    lemma_all_dealt(env, s3, s4, env.needs(who));
                    lemma_tree_pkgbuild(env, s4, more, repo, srcinfo, q);
                    lemma_add_pkgbuild(s4, repo, srcinfo, q);
                    if choice::unambiguous(env) {
                        choice::law_pkgbuild_dep(env, env.repos, None, dep);
                        lemma_pkgbuild_sat(env, s4, repo, srcinfo, q, dep);
                    }
                    assert(r == s4.add_pkgbuild(repo, srcinfo, q));
                    lemma_grows(st, s1, s2);
                    lemma_grows(st, s2, s3);
                    lemma_grows(st, s3, s4);
                    lemma_grows(st, s4, r);
                    lemma_tree_close(env, r, open, need);
                },
                None => match env.select_aur(dep, false) {
                    Some(p) => {
                        let e = (depth - 1) as nat;
                        let who = AurOrPkgbuild::Aur(&*p);
                        let s2 = s1.push(p.name@, dep.text);
                        let s3 = aur_tree::pkg_deps(env, e, s2, targs, who, true);
                        let s4 = s3.pop();
                        let q = Package { pkg: p, make, target: false };
                        aur_tree::lemma_select_aur(env, dep, false);
                        aur_tree::lemma_known_aur(env, p);
                        assert(grows(s1, s2));
                        lemma_tree_same(env, s1, s2, more);
                        lemma_pkg_deps(env, e, s2, targs, who, true, more);
                        assert(s4.stack =~= st.stack);
                        assert(grows(s3, s4));
                        lemma_tree_same(env, s3, s4, more);
                        lemma_all_dealt(env, s3, s4, env.needs(who));
                        lemma_tree_aur(env, s4, more, q);
                        lemma_add_aur(s4, q);
                        if choice::unambiguous(env) {
                            choice::law_select(env, dep, false);
                            lemma_aur_sat(env, s4, q, dep);
                        }
                        assert(r == s4.add_aur(q));
                        lemma_grows(st, s1, s2);
                        lemma_grows(st, s2, s3);
                        lemma_grows(st, s3, s4);
                        lemma_grows(st, s4, r);
                        lemma_tree_close(env, r, open, need);
                    },
                    None => {
                        assert(r == s1.miss(dep.text));
                        assert(r.missing[s1.missing.len() as int].dep == dep.text);
                        assert(grows(s1, r));
                        lemma_tree_same(env, s1, r, more);
                        lemma_grows(st, s1, r);
                        lemma_tree_close(env, r, open, need);
                    },
                },
            }
        }
        assert(r.resolved.contains(dep.text));
        assert(dealt(env, r, need));
    }
}

/// What holds between targets.
spec fn run_ok<'a>(env: Env<'a>, st: St<'a>) -> bool {
    &&& install_ok(st)
    &&& bases_ok(st.build)
    &&& !env.flags.has(Flags::NO_DEPS) ==> tree_ok(env, st, Set::empty())
}

/// Resolving a target: the state grows, the path is what it was, and each repo package that was
/// dealt with is to be installed.
spec fn run_frame<'a>(st: St<'a>, r: St<'a>) -> bool {
    &&& grows(st, r)
    &&& r.stack == st.stack
    &&& forall|n: Seq<char>| #[trigger]
        r.seen.contains(n) ==> st.seen.contains(n) || installs(r.install, n)
}

/// Resolving targets goes on.
proof fn lemma_run_frame<'a>(a: St<'a>, b: St<'a>, c: St<'a>)
    requires
        run_frame(a, b),
        run_frame(b, c),
    ensures
        run_frame(a, c),
{
    lemma_grows(a, b, c);
    assert forall|n: Seq<char>| #[trigger] c.seen.contains(n) implies a.seen.contains(n)
        || installs(c.install, n) by {
        if b.seen.contains(n) && !a.seen.contains(n) {
            let i = choose|i: int|
                0 <= i < b.install.len() && (#[trigger] b.install[i]).pkg.name@ == n;
            assert(c.install[i].pkg == b.install[i].pkg);
        }
    }
}

/// What is installed goes on being installed.
proof fn lemma_installs<'a>(a: St<'a>, b: St<'a>, name: Seq<char>)
    requires
        grows(a, b),
        installs(a.install, name),
    ensures
        installs(b.install, name),
{
    let i = choose|i: int| 0 <= i < a.install.len() && (#[trigger] a.install[i]).pkg.name@ == name;
    assert(b.install[i].pkg == a.install[i].pkg);
}

/// The target is up to date.
pub open spec fn is_unneeded(unneeded: Seq<crate::actions::UnneededV>, name: Seq<char>) -> bool {
    exists|i: int| 0 <= i < unneeded.len() && (#[trigger] unneeded[i]).name == name
}

/// A package with the name is to be installed, as a target if it is asked for as one, and make only
/// at most if it is asked for as a make dependency.
pub open spec fn installs_as<'a>(
    install: Seq<RepoPackage<'a>>,
    name: Seq<char>,
    make: bool,
    target: bool,
) -> bool {
    exists|i: int|
        0 <= i < install.len() && (#[trigger] install[i]).pkg.name@ == name && (target
            ==> install[i].target) && (install[i].make ==> make)
}

/// A package with the name is to be built, as a target if it is asked for as one, and make only at
/// most if it is asked for as a make dependency.
pub open spec fn builds_as<'a>(
    build: Seq<BaseV<'a>>,
    name: Seq<char>,
    make: bool,
    target: bool,
) -> bool {
    exists|b: int, k: int|
        0 <= b < build.len() && 0 <= k < build[b].names().len() && #[trigger] build[b].names()[k]
            == name && (target ==> build[b].targets()[k]) && (build[b].makes()[k] ==> make)
}

/// The target from a sync database is met already, up to date, or to be installed.
pub open spec fn repo_done<'a>(
    env: Env<'a>,
    st: St<'a>,
    targ: TargV,
    pkg: &'a AlpmPkg,
    make: Seq<Seq<char>>,
    is_target: bool,
) -> bool {
    ||| targets::repo_met(env, targ, is_target)
    ||| targets::repo_unneeded(env, targ, *pkg) is Some && is_unneeded(st.unneeded, targ.text())
    ||| installs_as(st.install, pkg.name@, make.contains(targ.pkg), is_target)
}

/// The target from a pkgbuild repo is met already, up to date, missing, or to be built.
pub open spec fn pkgbuild_done<'a>(
    env: Env<'a>,
    st: St<'a>,
    targ: TargV,
    make: Seq<Seq<char>>,
    is_target: bool,
) -> bool {
    let dep = (env.m.depend)(targ.pkg);
    ||| env.skip_aur(dep, is_target)
    ||| match env.pkgbuild_dep(targ.repo, dep) {
        None => is_missing(st.missing, dep.text),
        Some(f) => {
            ||| env.unneeded(targ.pkg, f.2.pkgname@, f.1.full_version(), is_target) is Some
                && is_unneeded(st.unneeded, targ.text())
            ||| builds_as(st.build, f.2.pkgname@, make.contains(targ.pkg), is_target)
        },
    }
}

/// The target from the AUR is met already, up to date, missing, or to be built.
pub open spec fn aur_done<'a>(
    env: Env<'a>,
    st: St<'a>,
    targ: Seq<char>,
    make: Seq<Seq<char>>,
    is_target: bool,
) -> bool {
    let dep = (env.m.depend)(targ);
    ||| env.skip_aur(dep, is_target)
    ||| match env.select_aur(dep, is_target) {
        None => is_missing(st.missing, dep.text),
        Some(p) => {
            ||| env.unneeded(targ, p.name@, p.version@, is_target) is Some && is_unneeded(
                st.unneeded,
                targ,
            )
            ||| builds_as(st.build, p.name@, make.contains(targ), is_target)
        },
    }
}

/// What is to be installed stays so.
proof fn lemma_installs_as<'a>(a: St<'a>, b: St<'a>, name: Seq<char>, make: bool, target: bool)
    requires
        grows(a, b),
        installs_as(a.install, name, make, target),
    ensures
        installs_as(b.install, name, make, target),
{
    let i = choose|i: int|
        0 <= i < a.install.len() && (#[trigger] a.install[i]).pkg.name@ == name && (target
            ==> a.install[i].target) && (a.install[i].make ==> make);
    assert(pkg_grows(a.install[i], b.install[i]));
}

/// What is to be built stays so.
proof fn lemma_builds_as<'a>(a: St<'a>, b: St<'a>, name: Seq<char>, make: bool, target: bool)
    requires
        grows(a, b),
        builds_as(a.build, name, make, target),
    ensures
        builds_as(b.build, name, make, target),
{
    let (i, k) = choose|i: int, k: int|
        0 <= i < a.build.len() && 0 <= k < a.build[i].names().len()
            && #[trigger] a.build[i].names()[k] == name && (target ==> a.build[i].targets()[k]) && (
        a.build[i].makes()[k] ==> make);
    assert(base_grows(a.build[i], b.build[i]));
    match (a.build[i], b.build[i]) {
        (BaseV::Aur { pkgs: p, .. }, BaseV::Aur { pkgs: q, .. }) => {
            assert(pkg_grows(p[k], q[k]));
        },
        (BaseV::Pkgbuild { pkgs: p, .. }, BaseV::Pkgbuild { pkgs: q, .. }) => {
            assert(pkg_grows(p[k], q[k]));
        },
        _ => {},
    }
    assert(b.build[i].names()[k] == name);
}

/// Targets stay done.
proof fn lemma_done_grows<'a>(
    env: Env<'a>,
    a: St<'a>,
    b: St<'a>,
    targ: TargV,
    pkg: &'a AlpmPkg,
    make: Seq<Seq<char>>,
    is_target: bool,
)
    requires
        grows(a, b),
    ensures
        repo_done(env, a, targ, pkg, make, is_target) ==> repo_done(
            env,
            b,
            targ,
            pkg,
            make,
            is_target,
        ),
        pkgbuild_done(env, a, targ, make, is_target) ==> pkgbuild_done(
            env,
            b,
            targ,
            make,
            is_target,
        ),
        aur_done(env, a, targ.pkg, make, is_target) ==> aur_done(
            env,
            b,
            targ.pkg,
            make,
            is_target,
        ),
{
    let dep = (env.m.depend)(targ.pkg);
    let is_make = make.contains(targ.pkg);
    if installs_as(a.install, pkg.name@, is_make, is_target) {
        lemma_installs_as(a, b, pkg.name@, is_make, is_target);
    }
    if is_unneeded(a.unneeded, targ.text()) {
        let i = choose|i: int|
            0 <= i < a.unneeded.len() && (#[trigger] a.unneeded[i]).name == targ.text();
        assert(b.unneeded[i] == a.unneeded[i]);
    }
    if is_unneeded(a.unneeded, targ.pkg) {
        let i = choose|i: int|
            0 <= i < a.unneeded.len() && (#[trigger] a.unneeded[i]).name == targ.pkg;
        assert(b.unneeded[i] == a.unneeded[i]);
    }
    if is_missing(a.missing, dep.text) {
        let i = choose|i: int| 0 <= i < a.missing.len() && (#[trigger] a.missing[i]).dep == dep.text;
        assert(b.missing[i] == a.missing[i]);
    }
    if let Some(f) = env.pkgbuild_dep(targ.repo, dep) {
        if builds_as(a.build, f.2.pkgname@, is_make, is_target) {
            lemma_builds_as(a, b, f.2.pkgname@, is_make, is_target);
        }
    }
    if let Some(p) = env.select_aur(dep, is_target) {
        if builds_as(a.build, p.name@, is_make, is_target) {
            lemma_builds_as(a, b, p.name@, is_make, is_target);
        }
    }
}

/// Only the path, the targets and what is up to date or missing changes.
proof fn lemma_run_same<'a>(env: Env<'a>, a: St<'a>, b: St<'a>)
    requires
        run_ok(env, a),
        grows(a, b),
        b.build == a.build,
        b.resolved == a.resolved,
        b.install == a.install,
        b.seen == a.seen,
    ensures
        run_ok(env, b),
{
    if !env.flags.has(Flags::NO_DEPS) {
        lemma_tree_same(env, a, b, Set::empty());
    }
}

/// The states hold the same packages, though more of them may be asked for in the second.
spec fn same_packages<'a>(a: St<'a>, b: St<'a>) -> bool {
    &&& grows(a, b)
    &&& b == (St { install: b.install, build: b.build, ..a })
    &&& b.install.len() == a.install.len()
    &&& b.build.len() == a.build.len()
    &&& forall|k: int| 0 <= k < a.build.len() ==> same_pkgs(a.build[k], #[trigger] b.build[k])
}

/// Noting that a repo package is asked for.
proof fn lemma_mark_install<'a>(st: St<'a>, name: Seq<char>, make: bool, target: bool)
    ensures
        same_packages(st, st.mark_install(name, make, target)),
        installs(st.install, name) ==> installs_as(
            st.mark_install(name, make, target).install,
            name,
            make,
            target,
        ),
{
    let r = st.mark_install(name, make, target);
    if installs(st.install, name) {
        let i = choose|i: int|
            0 <= i < st.install.len() && (#[trigger] st.install[i]).pkg.name@ == name;
        assert(r.install[i].pkg.name@ == name);
    }
}

/// Noting that a package that is to be built is asked for.
proof fn lemma_mark_build<'a>(st: St<'a>, name: Seq<char>, make: bool, target: bool)
    ensures
        same_packages(st, st.mark_build(name, make, target)),
        targets::builds(st.build, name) ==> builds_as(
            st.mark_build(name, make, target).build,
            name,
            make,
            target,
        ),
{
    let r = st.mark_build(name, make, target);
    assert forall|b: int| 0 <= b < st.build.len() implies base_grows(
        st.build[b],
        #[trigger] r.build[b],
    ) by {
    }
    if targets::builds(st.build, name) {
        let b = choose|b: int|
            0 <= b < st.build.len() && (#[trigger] st.build[b]).names().contains(name);
        let names = st.build[b].names();
        let k = choose|k: int| 0 <= k < names.len() && names[k] == name;
        assert(r.build[b].names()[k] == name);
    }
}

/// What holds goes on holding where more packages are asked for.
proof fn lemma_run_marked<'a>(env: Env<'a>, a: St<'a>, b: St<'a>)
    requires
        run_ok(env, a),
        same_packages(a, b),
    ensures
        run_ok(env, b),
        run_frame(a, b),
{
    assert forall|n: Seq<char>| #[trigger] b.seen.contains(n) implies a.seen.contains(n)
        || installs(b.install, n) by {
    }
    assert forall|i: int, j: int| 0 <= i < j < b.install.len() implies (
    #[trigger] b.install[i]).pkg.name@ != (#[trigger] b.install[j]).pkg.name@ by {
        assert(a.install[i].pkg.name@ != a.install[j].pkg.name@);
    }
    assert forall|i: int| 0 <= i < b.install.len() implies b.seen.contains(
        (#[trigger] b.install[i]).pkg.name@,
    ) by {
        assert(a.seen.contains(a.install[i].pkg.name@));
    }
    assert forall|k: int| 0 <= k < b.build.len() implies has_pkgs(#[trigger] b.build[k])
        && b.build[k].name() == a.build[k].name() && (b.build[k] is Aur) == (a.build[k] is Aur)
        && b.build[k].builds() == a.build[k].builds() by {
        assert(has_pkgs(a.build[k]));
        lemma_same_names(a.build[k], b.build[k]);
    }
    assert forall|i: int, j: int|
        0 <= i < j < b.build.len() && same_name(#[trigger] b.build[i], #[trigger] b.build[j]) implies
        !b.build[j].builds() by {
        assert(same_name(a.build[i], a.build[j]));
    }
    assert forall|j: int| 0 <= j < b.build.len() && !(#[trigger] b.build[j]).builds() implies exists|
        i: int,
    | 0 <= i < j && same_name(#[trigger] b.build[i], b.build[j]) by {
        assert(!a.build[j].builds());
        let i = choose|i: int| 0 <= i < j && same_name(#[trigger] a.build[i], a.build[j]);
        assert(same_name(b.build[i], b.build[j]));
    }
    if !env.flags.has(Flags::NO_DEPS) {
        assert forall|i: int, j: int|
            0 <= i < b.install.len() && 0 <= j < b.install[i].pkg.depends@.len() implies repo_dealt(
            env,
            b,
            #[trigger] b.install[i].pkg.depends@[j]@,
        ) by {
            assert(b.install[i].pkg == a.install[i].pkg);
            lemma_repo_dealt(env, a, b, a.install[i].pkg.depends@[j]@);
        }
        assert forall|k: int| 0 <= k < b.build.len() && (#[trigger] b.build[k]) is Pkgbuild implies
            choice::in_repos(env.repos, b.build[k]->Pkgbuild_srcinfo) by {
            assert(same_pkgs(a.build[k], b.build[k]));
            assert(a.build[k] is Pkgbuild);
        }
        assert forall|k: int| 0 <= k < b.build.len() implies base_closed(
            env,
            b,
            #[trigger] b.build[k],
        ) by {
            assert(same_pkgs(a.build[k], b.build[k]));
            assert(base_closed(env, a, a.build[k]));
            lemma_base_closed(env, a, b, a.build[k]);
            match (a.build[k], b.build[k]) {
                (BaseV::Aur { pkgs: p, .. }, BaseV::Aur { pkgs: q, .. }) => {
                    assert forall|l: int| 0 <= l < q.len() implies all_dealt(
                        env,
                        b,
                        env.needs(AurOrPkgbuild::Aur(&*(#[trigger] q[l]).pkg)),
                    ) by {
                        assert(q[l].pkg == p[l].pkg);
                    }
                },
                (BaseV::Pkgbuild { pkgs: p, .. }, BaseV::Pkgbuild { pkgs: q, .. }) => {
                    assert forall|l: int| 0 <= l < q.len() implies all_dealt(
                        env,
                        b,
                        run_needs(env, *(#[trigger] q[l]).pkg),
                    ) by {
                        assert(q[l].pkg == p[l].pkg);
                    }
                },
                _ => {},
            }
        }
        assert forall|need: Seq<char>|
            b.resolved.contains((#[trigger] (env.m.depend)(need)).text) implies answered(
            env,
            b,
            (env.m.depend)(need),
        ) by {
            lemma_answered(env, a, b, (env.m.depend)(need));
        }
    }
}

/// Resolving a target that comes from a sync database.
proof fn lemma_repo_target<'a>(
    env: Env<'a>,
    st: St<'a>,
    targ: TargV,
    pkg: &'a AlpmPkg,
    make: Seq<Seq<char>>,
    is_target: bool,
)
    requires
        alpm::valid(env.m),
        run_ok(env, st),
    ensures
        ({
            let r = targets::repo_target(env, st, targ, pkg, make, is_target);
            &&& run_frame(st, r)
            &&& run_ok(env, r)
            &&& (forall|n: Seq<char>| #[trigger]
                st.seen.contains(n) ==> installs(st.install, n)) ==> repo_done(
                env,
                r,
                targ,
                pkg,
                make,
                is_target,
            )
        }),
{
    let r = targets::repo_target(env, st, targ, pkg, make, is_target);
    let is_make = make.contains(targ.pkg);
    if targets::repo_met(env, targ, is_target) {
    } else if targets::repo_unneeded(env, targ, *pkg) is Some {
        assert(r.unneeded[st.unneeded.len() as int].name == targ.text());
        assert(grows(st, r));
        lemma_run_same(env, st, r);
    } else {
        let d = tree::repo_depth(env);
        let s1 = st.push(pkg.name@, targ.pkg);
        let s2 = tree::repo_pkg(env, d, s1, pkg, is_target, is_make);
        let s3 = s2.pop();
        seqs::lemma_left_len(tree::sync_names(env.m.system), s1.seen);
        assert(grows(st, s1));
        lemma_run_same(env, st, s1);
        lemma_repo_pkg(env, d, s1, pkg, is_target, is_make);
        if !env.flags.has(Flags::NO_DEPS) {
            lemma_tree_install(env, s1, s2, Set::empty());
        }
        assert(s3.stack =~= st.stack);
        assert(grows(s2, s3));
        lemma_run_same(env, s2, s3);
        lemma_grows(st, s1, s2);
        lemma_grows(st, s2, s3);
        lemma_mark_install(s3, pkg.name@, is_make, is_target);
        lemma_run_marked(env, s3, r);
        lemma_run_frame(st, s3, r);
        assert(s3.seen.contains(pkg.name@));
        if (forall|n: Seq<char>| #[trigger] st.seen.contains(n) ==> installs(st.install, n)) {
            if st.seen.contains(pkg.name@) {
                lemma_installs(st, s3, pkg.name@);
            }
        }
    }
}

/// Building what a target depends on.
proof fn lemma_target_deps<'a>(
    env: Env<'a>,
    st: St<'a>,
    targs: Seq<Seq<char>>,
    who: AurOrPkgbuild<'_>,
    make: bool,
    name: Seq<char>,
    targ: Seq<char>,
) -> (s: St<'a>)
    requires
        alpm::valid(env.m),
        run_ok(env, st),
        env.known(who),
    ensures
        s == aur_tree::pkg_deps(env, env.depth(), st.push(name, targ), targs, who, make).pop(),
        run_frame(st, s),
        run_ok(env, s),
        !env.flags.has(Flags::NO_DEPS) ==> all_dealt(env, s, env.needs(who)),
{
    let s1 = st.push(name, targ);
    let s2 = aur_tree::pkg_deps(env, env.depth(), s1, targs, who, make);
    let s = s2.pop();
    assert(grows(st, s1));
    lemma_run_same(env, st, s1);
    if !env.flags.has(Flags::NO_DEPS) {
        seqs::lemma_left_len(env.all_texts(), s1.resolved);
        lemma_pkg_deps(env, env.depth(), s1, targs, who, make, Set::empty());
        assert(grows(s2, s));
        lemma_all_dealt(env, s2, s, env.needs(who));
    } else {
        lemma_grows_same(s1);
        assert(grows(s2, s));
    }
    assert(s.stack =~= st.stack);
    lemma_run_same(env, s2, s);
    lemma_grows(st, s1, s2);
    lemma_grows(st, s2, s);
    s
}

/// Resolving a target that comes from a pkgbuild repo.
proof fn lemma_pkgbuild_target<'a>(
    env: Env<'a>,
    st: St<'a>,
    targ: TargV,
    make: Seq<Seq<char>>,
    is_target: bool,
    targs: Seq<Seq<char>>,
)
    requires
        alpm::valid(env.m),
        run_ok(env, st),
    ensures
        ({
            let r = targets::pkgbuild_target(env, st, targ, make, is_target, targs);
            &&& run_frame(st, r)
            &&& run_ok(env, r)
            &&& pkgbuild_done(env, r, targ, make, is_target)
        }),
{
    let dep = (env.m.depend)(targ.pkg);
    let is_make = make.contains(targ.pkg);
    let r = targets::pkgbuild_target(env, st, targ, make, is_target, targs);
    if !env.skip_aur(dep, is_target) {
        match env.pkgbuild_dep(targ.repo, dep) {
            None => {
                assert(r.missing[st.missing.len() as int].dep == dep.text);
                assert(grows(st, r));
                lemma_run_same(env, st, r);
            },
            Some((repo, srcinfo, p)) => match env.unneeded(
                targ.pkg,
                p.pkgname@,
                srcinfo.full_version(),
                is_target,
            ) {
                Some(version) => {
                    assert(r.unneeded[st.unneeded.len() as int].name == targ.text());
                    assert(grows(st, r));
                    lemma_run_same(env, st, r);
                },
                None => {
                    let who = AurOrPkgbuild::Pkgbuild(srcinfo, p);
                    let k = aur_tree::lemma_pkgbuild_dep(env, env.repos, targ.repo, dep);
                    aur_tree::lemma_known_pkgbuild(env, k, srcinfo, p);
                    assert(choice::in_repos(env.repos, srcinfo));
                    let s = lemma_target_deps(env, st, targs, who, is_make, p.pkgname@, targ.pkg);
                    if targets::builds(s.build, p.pkgname@) {
                        lemma_mark_build(s, p.pkgname@, is_make, is_target);
                        lemma_run_marked(env, s, r);
                        lemma_run_frame(st, s, r);
                    } else {
                        let q = Package { pkg: p, make: is_make, target: is_target };
                        lemma_add_pkgbuild(s, repo, srcinfo, q);
                        if !env.flags.has(Flags::NO_DEPS) {
                            lemma_tree_pkgbuild(env, s, Set::empty(), repo, srcinfo, q);
                        }
                        assert(r == s.add_pkgbuild(repo, srcinfo, q));
                        assert(run_frame(s, r));
                        lemma_run_frame(st, s, r);
                        let n = r.build.len() - 1;
                        let k = r.build[n].names().len() - 1;
                        assert(r.build[n].names()[k] == p.pkgname@);
                    }
                },
            },
        }
    }
}

/// Resolving a target that comes from the AUR.
proof fn lemma_aur_target<'a>(
    env: Env<'a>,
    st: St<'a>,
    targ: Seq<char>,
    make: Seq<Seq<char>>,
    is_target: bool,
    targs: Seq<Seq<char>>,
)
    requires
        alpm::valid(env.m),
        run_ok(env, st),
    ensures
        ({
            let r = targets::aur_target(env, st, targ, make, is_target, targs);
            &&& run_frame(st, r)
            &&& run_ok(env, r)
            &&& aur_done(env, r, targ, make, is_target)
        }),
{
    let dep = (env.m.depend)(targ);
    let is_make = make.contains(targ);
    let s0 = St { seen_target: st.seen_target.insert(targ), ..st };
    let r = targets::aur_target(env, st, targ, make, is_target, targs);
    assert(grows(st, s0));
    assert(run_frame(st, s0));
    lemma_run_same(env, st, s0);
    if !env.skip_aur(dep, is_target) {
        match env.select_aur(dep, is_target) {
            None => {
                assert(r.missing[st.missing.len() as int].dep == dep.text);
                assert(grows(s0, r));
                lemma_run_same(env, s0, r);
                lemma_grows(st, s0, r);
            },
            Some(p) => match env.unneeded(targ, p.name@, p.version@, is_target) {
                Some(version) => {
                    assert(r.unneeded[st.unneeded.len() as int].name == targ);
                    assert(grows(s0, r));
                    lemma_run_same(env, s0, r);
                    lemma_grows(st, s0, r);
                },
                None => {
                    let who = AurOrPkgbuild::Aur(&*p);
                    aur_tree::lemma_select_aur(env, dep, is_target);
                    aur_tree::lemma_known_aur(env, p);
                    let s = lemma_target_deps(env, s0, targs, who, is_make, p.name@, targ);
                    lemma_run_frame(st, s0, s);
                    if targets::builds(s.build, p.name@) {
                        lemma_mark_build(s, p.name@, is_make, is_target);
                        lemma_run_marked(env, s, r);
                        lemma_run_frame(st, s, r);
                    } else {
                        let q = Package { pkg: p, make: is_make, target: is_target };
                        lemma_add_aur(s, q);
                        if !env.flags.has(Flags::NO_DEPS) {
                            lemma_tree_aur(env, s, Set::empty(), q);
                        }
                        assert(r == s.add_aur(q));
                        assert(run_frame(s, r));
                        lemma_run_frame(st, s, r);
                        let n = r.build.len() - 1;
                        let k = r.build[n].names().len() - 1;
                        assert(r.build[n].names()[k] == p.name@);
                    }
                },
            },
        }
    }
}

/// Every repo package that has been dealt with is to be installed.
spec fn seen_installed<'a>(st: St<'a>) -> bool {
    forall|n: Seq<char>| #[trigger] st.seen.contains(n) ==> installs(st.install, n)
}

/// That goes on.
proof fn lemma_seen_installed<'a>(a: St<'a>, b: St<'a>)
    requires
        seen_installed(a),
        run_frame(a, b),
    ensures
        seen_installed(b),
{
    assert forall|n: Seq<char>| #[trigger] b.seen.contains(n) implies installs(b.install, n) by {
        if a.seen.contains(n) {
            lemma_installs(a, b, n);
        }
    }
}

/// Resolving the targets that come from sync databases.
proof fn lemma_repo_targets<'a>(
    env: Env<'a>,
    st: St<'a>,
    ts: Seq<(TargV, &'a AlpmPkg)>,
    make: Seq<Seq<char>>,
    is_target: bool,
)
    requires
        alpm::valid(env.m),
        run_ok(env, st),
        seen_installed(st),
    ensures
        ({
            let r = targets::repo_targets(env, st, ts, make, is_target);
            &&& run_frame(st, r)
            &&& run_ok(env, r)
            &&& seen_installed(r)
            &&& forall|i: int|
                0 <= i < ts.len() ==> repo_done(
                    env,
                    r,
                    (#[trigger] ts[i]).0,
                    ts[i].1,
                    make,
                    is_target,
                )
        }),
    decreases ts.len(),
{
    if ts.len() > 0 {
        let s = targets::repo_target(env, st, ts[0].0, ts[0].1, make, is_target);
        let r = targets::repo_targets(env, st, ts, make, is_target);
        lemma_repo_target(env, st, ts[0].0, ts[0].1, make, is_target);
        lemma_seen_installed(st, s);
        lemma_repo_targets(env, s, ts.drop_first(), make, is_target);
        lemma_run_frame(st, s, r);
        assert forall|i: int| 0 <= i < ts.len() implies repo_done(
            env,
            r,
            (#[trigger] ts[i]).0,
            ts[i].1,
            make,
            is_target,
        ) by {
            if i == 0 {
                lemma_done_grows(env, s, r, ts[0].0, ts[0].1, make, is_target);
            } else {
                assert(ts.drop_first()[i - 1] == ts[i]);
            }
        }
    }
}

/// Resolving the targets that come from pkgbuild repos.
proof fn lemma_pkgbuild_targets<'a>(
    env: Env<'a>,
    st: St<'a>,
    ts: Seq<TargV>,
    make: Seq<Seq<char>>,
    is_target: bool,
    targs: Seq<Seq<char>>,
)
    requires
        alpm::valid(env.m),
        run_ok(env, st),
        seen_installed(st),
    ensures
        ({
            let r = targets::pkgbuild_targets(env, st, ts, make, is_target, targs);
            &&& run_frame(st, r)
            &&& run_ok(env, r)
            &&& seen_installed(r)
            &&& forall|i: int|
                0 <= i < ts.len() ==> pkgbuild_done(env, r, #[trigger] ts[i], make, is_target)
        }),
    decreases ts.len(),
{
    if ts.len() > 0 {
        let s = targets::pkgbuild_target(env, st, ts[0], make, is_target, targs);
        let r = targets::pkgbuild_targets(env, st, ts, make, is_target, targs);
        lemma_pkgbuild_target(env, st, ts[0], make, is_target, targs);
        lemma_seen_installed(st, s);
        lemma_pkgbuild_targets(env, s, ts.drop_first(), make, is_target, targs);
        lemma_run_frame(st, s, r);
        assert forall|i: int| 0 <= i < ts.len() implies pkgbuild_done(
            env,
            r,
            #[trigger] ts[i],
            make,
            is_target,
        ) by {
            if i == 0 {
                lemma_done_grows(env, s, r, ts[0], arbitrary(), make, is_target);
            } else {
                assert(ts.drop_first()[i - 1] == ts[i]);
            }
        }
    }
}

/// Resolving the targets that come from the AUR.
proof fn lemma_aur_targets<'a>(
    env: Env<'a>,
    st: St<'a>,
    ts: Seq<Seq<char>>,
    make: Seq<Seq<char>>,
    is_target: bool,
    targs: Seq<Seq<char>>,
)
    requires
        alpm::valid(env.m),
        run_ok(env, st),
        seen_installed(st),
    ensures
        ({
            let r = targets::aur_targets(env, st, ts, make, is_target, targs);
            &&& run_frame(st, r)
            &&& run_ok(env, r)
            &&& seen_installed(r)
            &&& forall|i: int|
                0 <= i < ts.len() ==> aur_done(env, r, #[trigger] ts[i], make, is_target)
        }),
    decreases ts.len(),
{
    if ts.len() > 0 {
        let s = targets::aur_target(env, st, ts[0], make, is_target, targs);
        let r = targets::aur_targets(env, st, ts, make, is_target, targs);
        lemma_aur_target(env, st, ts[0], make, is_target, targs);
        lemma_seen_installed(st, s);
        lemma_aur_targets(env, s, ts.drop_first(), make, is_target, targs);
        lemma_run_frame(st, s, r);
        assert forall|i: int| 0 <= i < ts.len() implies aur_done(
            env,
            r,
            #[trigger] ts[i],
            make,
            is_target,
        ) by {
            if i == 0 {
                let t = TargV { repo: None, pkg: ts[0] };
                lemma_done_grows(env, s, r, t, arbitrary(), make, is_target);
            } else {
                assert(ts.drop_first()[i - 1] == ts[i]);
            }
        }
    }
}

/// The dependency is accounted for: it is met by what is assumed or really installed or by what is
/// to be installed or built, the package that libalpm finds for it is to be installed, or it is
/// among what is missing.
pub open spec fn accounted<'a>(env: Env<'a>, st: St<'a>, dep: DependV) -> bool {
    ||| env.assumed(dep)
    ||| env.sat_local(dep)
    ||| env.sat_install(st.install, dep)
    ||| met_by_build(env, st.build, dep)
    ||| env.repo_sat(dep.text) matches Some(p) && installs(st.install, p.name@)
    ||| is_missing(st.missing, dep.text)
}

/// The dependency of a package that is to be built is accounted for, and, where that an installed
/// package meets it does not count, by something else.
pub open spec fn accounted_build<'a>(env: Env<'a>, st: St<'a>, dep: DependV) -> bool {
    &&& accounted(env, st, dep)
    &&& only_local(env, dep) ==> {
        ||| env.assumed(dep)
        ||| env.sat_install(st.install, dep)
        ||| met_by_build(env, st.build, dep)
        ||| is_missing(st.missing, dep.text)
    }
}

/// What a package of a base needs to be built and to run.
pub open spec fn needs_of<'a>(env: Env<'a>, base: BaseV<'a>, k: int) -> Seq<Seq<char>> {
    match base {
        BaseV::Aur { pkgs, .. } => env.needs(AurOrPkgbuild::Aur(&*pkgs[k].pkg)),
        BaseV::Pkgbuild { srcinfo, pkgs, .. } => env.needs(
            AurOrPkgbuild::Pkgbuild(srcinfo, pkgs[k].pkg),
        ),
    }
}

/// Each dependency of each package that is to be installed or built is accounted for.
pub open spec fn complete<'a>(env: Env<'a>, st: St<'a>) -> bool {
    &&& forall|i: int, j: int|
        0 <= i < st.install.len() && 0 <= j < st.install[i].pkg.depends@.len() ==> accounted(
            env,
            st,
            #[trigger] st.install[i].pkg.depends@[j]@,
        )
    &&& forall|b: int, k: int, n: int|
        0 <= b < st.build.len() && 0 <= k < st.build[b].names().len() && 0 <= n < needs_of(
            env,
            st.build[b],
            k,
        ).len() ==> accounted_build(
            env,
            st,
            (env.m.depend)(#[trigger] needs_of(env, st.build[b], k)[n]),
        )
}

/// Nothing has been resolved, though targets may be missing.
pub open spec fn fresh<'a>(st: St<'a>) -> bool {
    st == (St { missing: st.missing, resolved: st.resolved, ..St::start() })
}

/// Resolving all the targets.
proof fn lemma_all_targets<'a>(
    env: Env<'a>,
    st: St<'a>,
    t: TargetsV<'a>,
    make: Seq<Seq<char>>,
    is_target: bool,
) -> (r: St<'a>)
    requires
        alpm::valid(env.m),
        fresh(st),
        st.resolved == Set::<Seq<char>>::empty(),
    ensures
        r == targets::all_targets(env, st, t, make, is_target),
        run_frame(st, r),
        run_ok(env, r),
        seen_installed(r),
        forall|i: int|
            0 <= i < t.repo.len() ==> repo_done(
                env,
                r,
                (#[trigger] t.repo[i]).0,
                t.repo[i].1,
                make,
                is_target,
            ),
        forall|i: int|
            0 <= i < t.pkgbuild.len() ==> pkgbuild_done(
                env,
                r,
                #[trigger] t.pkgbuild[i],
                make,
                is_target,
            ),
        forall|i: int| 0 <= i < t.aur.len() ==> aur_done(env, r, #[trigger] t.aur[i], make, is_target),
{
    let s1 = targets::repo_targets(env, st, t.repo, make, is_target);
    let s2 = targets::pkgbuild_targets(env, s1, t.pkgbuild, make, is_target, t.aur);
    let r = targets::aur_targets(env, s2, t.aur, make, is_target, t.aur);
    assert(run_ok(env, st));
    lemma_repo_targets(env, st, t.repo, make, is_target);
    lemma_pkgbuild_targets(env, s1, t.pkgbuild, make, is_target, t.aur);
    lemma_aur_targets(env, s2, t.aur, make, is_target, t.aur);
    lemma_run_frame(st, s1, s2);
    lemma_run_frame(st, s2, r);
    lemma_run_frame(s1, s2, r);
    assert forall|i: int| 0 <= i < t.repo.len() implies repo_done(
        env,
        r,
        (#[trigger] t.repo[i]).0,
        t.repo[i].1,
        make,
        is_target,
    ) by {
        lemma_done_grows(env, s1, r, t.repo[i].0, t.repo[i].1, make, is_target);
    }
    assert forall|i: int| 0 <= i < t.pkgbuild.len() implies pkgbuild_done(
        env,
        r,
        #[trigger] t.pkgbuild[i],
        make,
        is_target,
    ) by {
        lemma_done_grows(env, s2, r, t.pkgbuild[i], arbitrary(), make, is_target);
    }
    r
}

/// What is make only has no bearing on what is met and what is to be installed or built.
proof fn lemma_makes<'a>(env: Env<'a>, st: St<'a>, f: spec_fn(Pos) -> bool)
    ensures
        ({
            let r = st.with_makes(f);
            &&& r.install.len() == st.install.len()
            &&& forall|i: int|
                0 <= i < st.install.len() ==> (#[trigger] r.install[i]).pkg == st.install[i].pkg
            &&& r.build.len() == st.build.len()
            &&& forall|b: int|
                0 <= b < st.build.len() ==> same_pkgs(st.build[b], #[trigger] r.build[b])
        }),
{
}

/// The bases hold the same packages.
spec fn same_pkgs<'a>(x: BaseV<'a>, y: BaseV<'a>) -> bool {
    match (x, y) {
        (BaseV::Aur { pkgs: p, build: c }, BaseV::Aur { pkgs: q, build: d }) => {
            &&& c == d
            &&& p.len() == q.len()
            &&& forall|k: int| 0 <= k < p.len() ==> (#[trigger] q[k]).pkg == p[k].pkg
        },
        (
            BaseV::Pkgbuild { repo: r, srcinfo: s, pkgs: p, build: c },
            BaseV::Pkgbuild { repo: t, srcinfo: u, pkgs: q, build: d },
        ) => {
            &&& r == t
            &&& s == u
            &&& c == d
            &&& p.len() == q.len()
            &&& forall|k: int| 0 <= k < p.len() ==> (#[trigger] q[k]).pkg == p[k].pkg
        },
        _ => false,
    }
}

/// Bases with the same packages have the same names.
proof fn lemma_same_names<'a>(x: BaseV<'a>, y: BaseV<'a>)
    requires
        same_pkgs(x, y),
    ensures
        x.names() == y.names(),
        x is Aur == y is Aur,
        x.builds() == y.builds(),
        has_pkgs(x) ==> x.name() == y.name(),
{
    match (x, y) {
        (BaseV::Aur { pkgs: p, .. }, BaseV::Aur { pkgs: q, .. }) => {
            assert forall|k: int| 0 <= k < p.len() implies x.names()[k] == y.names()[k] by {
                assert(q[k].pkg == p[k].pkg);
            }
            if p.len() > 0 {
                assert(q[0].pkg == p[0].pkg);
            }
        },
        (BaseV::Pkgbuild { pkgs: p, .. }, BaseV::Pkgbuild { pkgs: q, .. }) => {
            assert forall|k: int| 0 <= k < p.len() implies x.names()[k] == y.names()[k] by {
                assert(q[k].pkg == p[k].pkg);
            }
        },
        _ => {},
    }
    assert(x.names() =~= y.names());
}

/// What is accounted for stays so whatever is make only.
proof fn lemma_accounted_makes<'a>(
    env: Env<'a>,
    st: St<'a>,
    f: spec_fn(Pos) -> bool,
    dep: DependV,
)
    requires
        accounted(env, st, dep),
    ensures
        accounted(env, st.with_makes(f), dep),
        accounted_build(env, st, dep) ==> accounted_build(env, st.with_makes(f), dep),
{
    let r = st.with_makes(f);
    lemma_makes(env, st, f);
    assert forall|name: Seq<char>| #[trigger] targets::builds(st.build, name) implies
        targets::builds(r.build, name) by {
        lemma_builds_makes(st, f, name);
    }
    assert forall|name: Seq<char>| #[trigger] installs(st.install, name) implies installs(
        r.install,
        name,
    ) by {
        lemma_installs_makes(st, f, name);
    }
    if env.sat_install(st.install, dep) {
        let i = choose|i: int|
            0 <= i < st.install.len() && satisfies::alpm_ok(
                env.m,
                *(#[trigger] st.install[i]).pkg,
                dep,
                env.nover(),
            );
        assert(r.install[i].pkg == st.install[i].pkg);
    }
    if env.sat_build(st.build, dep) {
        let b = choose|b: int| 0 <= b < st.build.len() && env.sat_base(#[trigger] st.build[b], dep);
        assert(same_pkgs(st.build[b], r.build[b]));
        match (st.build[b], r.build[b]) {
            (BaseV::Aur { pkgs: p, .. }, BaseV::Aur { pkgs: q, .. }) => {
                let k = choose|k: int|
                    0 <= k < p.len() && satisfies::aur_ok(
                        env.m,
                        *(#[trigger] p[k]).pkg,
                        dep,
                        env.nover(),
                    );
                assert(q[k].pkg == p[k].pkg);
            },
            (BaseV::Pkgbuild { srcinfo, pkgs: p, .. }, BaseV::Pkgbuild { pkgs: q, .. }) => {
                let k = choose|k: int|
                    0 <= k < p.len() && satisfies::srcinfo_ok(
                        env.m,
                        *srcinfo,
                        *(#[trigger] p[k]).pkg,
                        dep,
                        env.nover(),
                    );
                assert(q[k].pkg == p[k].pkg);
            },
            _ => {},
        }
        assert(env.sat_base(r.build[b], dep));
    }
}

/// What is built is built whatever is make only.
proof fn lemma_builds_makes<'a>(
    st: St<'a>,
    f: spec_fn(Pos) -> bool,
    name: Seq<char>,
)
    requires
        targets::builds(st.build, name),
    ensures
        targets::builds(st.with_makes(f).build, name),
{
    let r = st.with_makes(f);
    let b = choose|b: int|
        0 <= b < st.build.len() && (#[trigger] st.build[b]).names().contains(name);
    assert(same_pkgs(st.build[b], r.build[b]));
    lemma_same_names(st.build[b], r.build[b]);
    assert(r.build[b].names().contains(name));
}

/// What is installed is installed whatever is make only.
proof fn lemma_installs_makes<'a>(
    st: St<'a>,
    f: spec_fn(Pos) -> bool,
    name: Seq<char>,
)
    requires
        installs(st.install, name),
    ensures
        installs(st.with_makes(f).install, name),
{
    let r = st.with_makes(f);
    let i = choose|i: int| 0 <= i < st.install.len() && (#[trigger] st.install[i]).pkg.name@ == name;
    assert(r.install[i].pkg == st.install[i].pkg);
}

/// What has been answered is accounted for, all repo packages that were dealt with being installed.
proof fn lemma_accounted<'a>(env: Env<'a>, st: St<'a>, dep: DependV)
    requires
        seen_installed(st),
        answered(env, st, dep),
    ensures
        accounted_build(env, st, dep),
{
}

/// Without make calculation.
proof fn lemma_complete<'a>(env: Env<'a>, st: St<'a>)
    requires
        !env.flags.has(Flags::NO_DEPS),
        run_ok(env, st),
        seen_installed(st),
    ensures
        complete(env, st),
{
    assert forall|i: int, j: int|
        0 <= i < st.install.len() && 0 <= j < st.install[i].pkg.depends@.len() implies accounted(
        env,
        st,
        #[trigger] st.install[i].pkg.depends@[j]@,
    ) by {
        assert(repo_dealt(env, st, st.install[i].pkg.depends@[j]@));
    }
    assert forall|b: int, k: int, n: int|
        0 <= b < st.build.len() && 0 <= k < st.build[b].names().len() && 0 <= n < needs_of(
            env,
            st.build[b],
            k,
        ).len() implies accounted_build(
        env,
        st,
        (env.m.depend)(#[trigger] needs_of(env, st.build[b], k)[n]),
    ) by {
        let need = needs_of(env, st.build[b], k)[n];
        let dep = (env.m.depend)(need);
        assert(base_closed(env, st, st.build[b]));
        match st.build[b] {
            BaseV::Aur { pkgs, .. } => {
                assert(all_dealt(env, st, env.needs(AurOrPkgbuild::Aur(&*pkgs[k].pkg))));
            },
            BaseV::Pkgbuild { srcinfo, pkgs, .. } => {
                assert(all_dealt(env, st, run_needs(env, *pkgs[k].pkg)));
                lemma_pkgbuild_needs(env, st, srcinfo, pkgs[k].pkg);
            },
        }
        assert(all_dealt(env, st, needs_of(env, st.build[b], k)));
        assert(dealt(env, st, need));
        if st.resolved.contains(dep.text) {
            assert(answered(env, st, dep));
            lemma_accounted(env, st, dep);
        }
    }
}

/// Resolving leaves no dependency behind: unless dependencies are switched off, each dependency of
/// each package that is to be installed or built is accounted for.
pub proof fn law_complete<'a>(
    env: Env<'a>,
    st: St<'a>,
    t: TargetsV<'a>,
    make_deps: Seq<TargV>,
    is_target: bool,
)
    requires
        alpm::valid(env.m),
        fresh(st),
        !env.flags.has(Flags::NO_DEPS),
    ensures
        complete(env, targets::outcome(env, st, t, make_deps, is_target)),
{
    let s0 = St { resolved: Set::empty(), ..st };
    let s = lemma_all_targets(env, s0, t, targets::pkg_parts(make_deps), is_target);
    let r = targets::outcome(env, st, t, make_deps, is_target);
    lemma_complete(env, s);
    if env.flags.has(Flags::CALCULATE_MAKE) {
        let f = s.make_only(env);
        lemma_makes(env, s, f);
        assert forall|i: int, j: int|
            0 <= i < r.install.len() && 0 <= j < r.install[i].pkg.depends@.len() implies accounted(
            env,
            r,
            #[trigger] r.install[i].pkg.depends@[j]@,
        ) by {
            assert(r.install[i].pkg == s.install[i].pkg);
            assert(accounted(env, s, s.install[i].pkg.depends@[j]@));
            lemma_accounted_makes(env, s, f, s.install[i].pkg.depends@[j]@);
        }
        assert forall|b: int, k: int, n: int|
            0 <= b < r.build.len() && 0 <= k < r.build[b].names().len() && 0 <= n < needs_of(
                env,
                r.build[b],
                k,
            ).len() implies accounted_build(
            env,
            r,
            (env.m.depend)(#[trigger] needs_of(env, r.build[b], k)[n]),
        ) by {
            assert(same_pkgs(s.build[b], r.build[b]));
            lemma_same_names(s.build[b], r.build[b]);
            assert(needs_of(env, s.build[b], k) == needs_of(env, r.build[b], k));
            assert(accounted_build(env, s, (env.m.depend)(needs_of(env, s.build[b], k)[n])));
            lemma_accounted_makes(
                env,
                s,
                f,
                (env.m.depend)(needs_of(env, s.build[b], k)[n]),
            );
        }
    }
}

/// Calculating make dependencies takes nothing back.
proof fn lemma_makes_grow<'a>(env: Env<'a>, st: St<'a>)
    ensures
        grows(st, st.with_makes(st.make_only(env))),
{
    let r = st.with_makes(st.make_only(env));
    assert forall|pos: Pos| #[trigger] st.valid(pos) && !st.is_make(pos) implies !st.make_only(env)(
        pos,
    ) by {
        assert(st.reach(env, 0, pos));
    }
    assert forall|i: int| 0 <= i < st.install.len() implies pkg_grows(
        st.install[i],
        #[trigger] r.install[i],
    ) by {
        assert(st.valid(Pos::Install(i)));
    }
    assert forall|b: int| 0 <= b < st.build.len() implies base_grows(
        st.build[b],
        #[trigger] r.build[b],
    ) by {
        assert forall|k: int| 0 <= k < st.build[b].makes().len() && !st.build[b].makes()[k] implies
            !#[trigger] st.make_only(env)(Pos::Build(b, k)) by {
            assert(st.valid(Pos::Build(b, k)));
            assert(!st.is_make(Pos::Build(b, k)));
        }
        match (st.build[b], r.build[b]) {
            (BaseV::Aur { pkgs: p, .. }, BaseV::Aur { pkgs: q, .. }) => {
                assert forall|k: int| 0 <= k < p.len() implies pkg_grows(p[k], #[trigger] q[k]) by {
                    assert(st.build[b].makes()[k] == p[k].make);
                    assert(q[k].make == st.make_only(env)(Pos::Build(b, k)));
                }
            },
            (BaseV::Pkgbuild { pkgs: p, .. }, BaseV::Pkgbuild { pkgs: q, .. }) => {
                assert forall|k: int| 0 <= k < p.len() implies pkg_grows(p[k], #[trigger] q[k]) by {
                    assert(st.build[b].makes()[k] == p[k].make);
                    assert(q[k].make == st.make_only(env)(Pos::Build(b, k)));
                }
            },
            _ => {},
        }
    }
}

/// Resolving leaves no target behind: each is met already, up to date, missing, or to be installed
/// or built. In the last two cases it is noted as a target, also where it was pulled in as a
/// dependency before, and it is make only at most if it is asked for as a make dependency.
pub proof fn law_targets<'a>(
    env: Env<'a>,
    st: St<'a>,
    t: TargetsV<'a>,
    make_deps: Seq<TargV>,
    is_target: bool,
)
    requires
        alpm::valid(env.m),
        fresh(st),
    ensures
        ({
            let r = targets::outcome(env, st, t, make_deps, is_target);
            let make = targets::pkg_parts(make_deps);
            &&& forall|i: int|
                0 <= i < t.repo.len() ==> repo_done(
                    env,
                    r,
                    (#[trigger] t.repo[i]).0,
                    t.repo[i].1,
                    make,
                    is_target,
                )
            &&& forall|i: int|
                0 <= i < t.pkgbuild.len() ==> pkgbuild_done(
                    env,
                    r,
                    #[trigger] t.pkgbuild[i],
                    make,
                    is_target,
                )
            &&& forall|i: int|
                0 <= i < t.aur.len() ==> aur_done(env, r, #[trigger] t.aur[i], make, is_target)
        }),
{
    let s0 = St { resolved: Set::empty(), ..st };
    let make = targets::pkg_parts(make_deps);
    let s = lemma_all_targets(env, s0, t, make, is_target);
    let r = targets::outcome(env, st, t, make_deps, is_target);
    lemma_grows_same(s);
    lemma_makes_grow(env, s);
    assert forall|i: int| 0 <= i < t.repo.len() implies repo_done(
        env,
        r,
        (#[trigger] t.repo[i]).0,
        t.repo[i].1,
        make,
        is_target,
    ) by {
        lemma_done_grows(env, s, r, t.repo[i].0, t.repo[i].1, make, is_target);
    }
    assert forall|i: int| 0 <= i < t.pkgbuild.len() implies pkgbuild_done(
        env,
        r,
        #[trigger] t.pkgbuild[i],
        make,
        is_target,
    ) by {
        lemma_done_grows(env, s, r, t.pkgbuild[i], arbitrary(), make, is_target);
    }
    assert forall|i: int| 0 <= i < t.aur.len() implies aur_done(
        env,
        r,
        #[trigger] t.aur[i],
        make,
        is_target,
    ) by {
        let targ = TargV { repo: None, pkg: t.aur[i] };
        lemma_done_grows(env, s, r, targ, arbitrary(), make, is_target);
    }
}

/// No package is installed twice and no base is built twice: packages that are to be installed have
/// distinct names, and of the bases with one name the first is built and no other. What was missing
/// stays missing.
pub proof fn law_once<'a>(
    env: Env<'a>,
    st: St<'a>,
    t: TargetsV<'a>,
    make_deps: Seq<TargV>,
    is_target: bool,
)
    requires
        alpm::valid(env.m),
        fresh(st),
    ensures
        ({
            let r = targets::outcome(env, st, t, make_deps, is_target);
            &&& distinct_install(r.install)
            &&& bases_ok(r.build)
            &&& st.missing.is_prefix_of(r.missing)
        }),
{
    let s0 = St { resolved: Set::empty(), ..st };
    let s = lemma_all_targets(env, s0, t, targets::pkg_parts(make_deps), is_target);
    let r = targets::outcome(env, st, t, make_deps, is_target);
    if env.flags.has(Flags::CALCULATE_MAKE) {
        let f = s.make_only(env);
        lemma_makes(env, s, f);
        assert forall|i: int, j: int| 0 <= i < j < r.install.len() implies (
        #[trigger] r.install[i]).pkg.name@ != (#[trigger] r.install[j]).pkg.name@ by {
            assert(r.install[i].pkg == s.install[i].pkg);
            assert(r.install[j].pkg == s.install[j].pkg);
        }
        assert forall|b: int| 0 <= b < r.build.len() implies has_pkgs(#[trigger] r.build[b])
            && r.build[b].name() == s.build[b].name() && (r.build[b] is Aur) == (s.build[b] is Aur)
            && r.build[b].builds() == s.build[b].builds() by {
            assert(same_pkgs(s.build[b], r.build[b]));
            assert(has_pkgs(s.build[b]));
            lemma_same_names(s.build[b], r.build[b]);
        }
        assert forall|i: int, j: int|
            0 <= i < j < r.build.len() && same_name(#[trigger] r.build[i], #[trigger] r.build[j])
            implies !r.build[j].builds() by {
            assert(same_name(s.build[i], s.build[j]));
        }
        assert forall|j: int| 0 <= j < r.build.len() && !(#[trigger] r.build[j]).builds() implies
            exists|i: int| 0 <= i < j && same_name(#[trigger] r.build[i], r.build[j]) by {
            assert(!s.build[j].builds());
            let i = choose|i: int| 0 <= i < j && same_name(#[trigger] s.build[i], s.build[j]);
            assert(same_name(r.build[i], r.build[j]));
        }
    }
}

/// With dependencies switched off none is followed: a repo package is installed by itself, and
/// nothing is built for the sake of another package.
pub proof fn law_no_deps<'a>(
    env: Env<'a>,
    depth: nat,
    st: St<'a>,
    targs: Seq<Seq<char>>,
    who: AurOrPkgbuild<'_>,
    pkg: &'a AlpmPkg,
    target: bool,
    make: bool,
)
    requires
        env.flags.has(Flags::NO_DEPS),
    ensures
        aur_tree::pkg_deps(env, depth, st, targs, who, make) == st,
        tree::repo_pkg(env, depth, st, pkg, target, make) == (if st.seen.contains(pkg.name@) {
            st
        } else {
            St { seen: st.seen.insert(pkg.name@), ..st }.add_install(
                Package { pkg, make, target },
            )
        }),
{
}

} // verus!
