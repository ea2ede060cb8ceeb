//! What the resolver knows and what it keeps track of.
use std::sync::Arc;
use vstd::prelude::*;
use crate::actions::{DepMissingV, MissingV, UnneededV};
use crate::alpm::{AlpmModel, AlpmPkg};
use crate::base::{AurPackage, BaseV, Pkgbuild, RepoPackage};
use crate::cache;
use crate::cb::Group;
use crate::depend::DependV;
use crate::flags::Flags;
use crate::pkg::{AurPkg, PkgbuildRepo, Srcinfo, SrcinfoPkg};
use crate::satisfies;
use crate::satisfies::Satisfies;
use crate::seqs;
use crate::target::TargV;
use crate::text;

pub mod laws;

verus! {

/// What the resolver reads.
pub struct Env<'a> {
    /// What libalpm answers.
    pub m: AlpmModel,
    /// The pkgbuild repos.
    pub repos: Seq<PkgbuildRepo<'a>>,
    /// The AUR packages that have been looked up.
    pub cache: Seq<Arc<AurPkg>>,
    /// The options.
    pub flags: Flags,
    /// The repository name that stands for the AUR.
    pub ns: Option<Seq<char>>,
    /// The provider callback.
    pub provider: Option<spec_fn(Seq<char>, Seq<Seq<char>>) -> int>,
    /// The group callback.
    pub group: Option<spec_fn(Seq<Group<'a>>) -> Seq<&'a AlpmPkg>>,
    /// The devel callback.
    pub devel: Option<spec_fn(Seq<char>) -> bool>,
}

/// What the resolver keeps track of.
#[verifier::ext_equal]
pub struct St<'a> {
    /// The dependencies that have been dealt with.
    pub resolved: Set<Seq<char>>,
    /// The path to the dependency that is being dealt with.
    pub stack: Seq<DepMissingV>,
    /// What could not be satisfied.
    pub missing: Seq<MissingV>,
    /// What is up to date.
    pub unneeded: Seq<UnneededV>,
    /// What is to be built.
    pub build: Seq<BaseV<'a>>,
    /// What is to be installed.
    pub install: Seq<RepoPackage<'a>>,
    /// The repo packages that have been dealt with.
    pub seen: Set<Seq<char>>,
    /// The AUR targets that have been dealt with.
    pub seen_target: Set<Seq<char>>,
}

/// The package has the name.
pub open spec fn alpm_named(name: Seq<char>) -> spec_fn(AlpmPkg) -> bool {
    |p: AlpmPkg| p.name@ == name
}

/// A package of a pkgbuild repo: the repo's name, the .SRCINFO and the package in it.
pub type Found<'a> = (Seq<char>, &'a Srcinfo, &'a SrcinfoPkg);

impl<'a> Env<'a> {
    /// Version constraints are ignored.
    pub open spec fn nover(self) -> bool {
        self.flags.has(Flags::NO_DEP_VERSION)
    }

    /// The first architecture, empty where there is none.
    pub open spec fn arch(self) -> Seq<char> {
        if self.m.system.architectures@.len() > 0 {
            self.m.system.architectures@[0]@
        } else {
            Seq::empty()
        }
    }

    /// The installed package with the name.
    pub open spec fn local_pkg(self, name: Seq<char>) -> Option<AlpmPkg> {
        seqs::first(self.m.system.localdb@, alpm_named(name))
    }

    /// Something that is to be taken as installed meets the dependency.
    pub open spec fn assumed(self, dep: DependV) -> bool {
        exists|i: int|
            0 <= i < self.m.system.assume_installed@.len() && #[trigger] satisfies::provide_ok(
                self.m,
                dep,
                self.m.system.assume_installed@[i]@,
                self.nover(),
            )
    }

    /// An installed package meets the dependency.
    pub open spec fn sat_local(self, dep: DependV) -> bool {
        ||| self.local_pkg(dep.name) matches Some(p) && satisfies::alpm_ok(
            self.m,
            p,
            dep,
            self.nover(),
        )
        ||| (self.m.local_satisfier)(
            if self.nover() {
                dep.name
            } else {
                dep.text
            },
        )
    }

    /// A package that is to be installed meets the dependency.
    pub open spec fn sat_install(self, install: Seq<RepoPackage<'a>>, dep: DependV) -> bool {
        exists|i: int|
            0 <= i < install.len() && satisfies::alpm_ok(
                self.m,
                *(#[trigger] install[i]).pkg,
                dep,
                self.nover(),
            )
    }

    /// A package of the base meets the dependency.
    pub open spec fn sat_base(self, base: BaseV<'a>, dep: DependV) -> bool {
        match base {
            BaseV::Aur { pkgs, .. } => exists|i: int|
                0 <= i < pkgs.len() && satisfies::aur_ok(
                    self.m,
                    *(#[trigger] pkgs[i]).pkg,
                    dep,
                    self.nover(),
                ),
            BaseV::Pkgbuild { srcinfo, pkgs, .. } => exists|i: int|
                0 <= i < pkgs.len() && satisfies::srcinfo_ok(
                    self.m,
                    *srcinfo,
                    *(#[trigger] pkgs[i]).pkg,
                    dep,
                    self.nover(),
                ),
        }
    }

    /// A package that is to be built meets the dependency.
    pub open spec fn sat_build(self, build: Seq<BaseV<'a>>, dep: DependV) -> bool {
        exists|i: int| 0 <= i < build.len() && self.sat_base(#[trigger] build[i], dep)
    }

    /// The string with which packages are looked up: without its version constraint where those
    /// are ignored.
    pub open spec fn query(self, s: Seq<char>) -> Seq<char> {
        if self.nover() {
            text::no_ver(s)
        } else {
            s
        }
    }

    /// The sync package that meets the dependency string.
    pub open spec fn repo_sat(self, s: Seq<char>) -> Option<AlpmPkg> {
        (self.m.repo_satisfier)(self.query(s))
    }

    /// The sync package that meets the dependency string, with no question asked.
    pub open spec fn repo_sat_silent(self, s: Seq<char>) -> Option<AlpmPkg> {
        (self.m.repo_satisfier_silent)(self.query(s))
    }

    /// The sync package that meets the target.
    pub open spec fn target_sat(self, t: TargV) -> Option<AlpmPkg> {
        (self.m.target_satisfier)(TargV { repo: t.repo, pkg: self.query(t.pkg) })
    }

    /// The .SRCINFO has a package that meets the dependency.
    pub open spec fn srcinfo_has(self, dep: DependV) -> spec_fn(&'a Srcinfo) -> bool {
        |s: &'a Srcinfo| s.which(self.m, dep, self.nover()) is Some
    }

    /// The first .SRCINFO with a package that meets the dependency, and the package.
    pub open spec fn srcinfo_dep(self, pkgs: Seq<&'a Srcinfo>, dep: DependV) -> Option<
        (&'a Srcinfo, &'a SrcinfoPkg),
    > {
        match seqs::first(pkgs, self.srcinfo_has(dep)) {
            Some(s) => Some(
                (s, &s.pkgs@[s.pkg_index(s.which(self.m, dep, self.nover())->0)]),
            ),
            None => None,
        }
    }

    /// The first package of the repos that meets the dependency. With `repo`, only repos of that
    /// name count.
    pub open spec fn pkgbuild_dep_in(
        self,
        repos: Seq<PkgbuildRepo<'a>>,
        repo: Option<Seq<char>>,
        dep: DependV,
    ) -> Option<Found<'a>>
        decreases repos.len(),
    {
        if repos.len() == 0 {
            None
        } else if (repo is None || repo == Some(repos[0].name@)) && self.srcinfo_dep(
            repos[0].pkgs@,
            dep,
        ) is Some {
            let found = self.srcinfo_dep(repos[0].pkgs@, dep)->0;
            Some((repos[0].name@, found.0, found.1))
        } else {
            self.pkgbuild_dep_in(repos.drop_first(), repo, dep)
        }
    }

    /// The first package of a pkgbuild repo that meets the dependency.
    pub open spec fn pkgbuild_dep(self, repo: Option<Seq<char>>, dep: DependV) -> Option<Found<'a>> {
        self.pkgbuild_dep_in(self.repos, repo, dep)
    }

    /// The AUR package meets the dependency.
    pub open spec fn aur_sat(self, dep: DependV) -> spec_fn(Arc<AurPkg>) -> bool {
        |p: Arc<AurPkg>| satisfies::aur_ok(self.m, *p, dep, self.nover())
    }

    /// The AUR package is installed and meets the dependency.
    pub open spec fn aur_sat_installed(self, dep: DependV) -> spec_fn(Arc<AurPkg>) -> bool {
        |p: Arc<AurPkg>|
            self.local_pkg(p.name@) is Some && satisfies::aur_ok(self.m, *p, dep, self.nover())
    }

    /// The AUR package that meets the dependency: one that is installed, else the one that the
    /// dependency names, else any.
    pub open spec fn find_aur(self, dep: DependV) -> Option<Arc<AurPkg>> {
        match seqs::first(self.cache, self.aur_sat_installed(dep)) {
            Some(p) => Some(p),
            None => match cache::lookup(self.cache, dep.name) {
                Some(p) if satisfies::aur_ok(self.m, *p, dep, self.nover()) => Some(p),
                _ => seqs::first(self.cache, self.aur_sat(dep)),
            },
        }
    }

    /// The names of the AUR packages that meet the dependency.
    pub open spec fn candidates(self, dep: DependV) -> Seq<Seq<char>> {
        aur_names(self.cache.filter(self.aur_sat(dep)))
    }

    /// A package with the name is installed.
    pub open spec fn installed(self) -> spec_fn(Seq<char>) -> bool {
        |name: Seq<char>| self.local_pkg(name) is Some
    }

    /// The names that are offered to the provider callback for the dependency.
    pub open spec fn offer(self, dep: DependV) -> Seq<Seq<char>> {
        offered(self.candidates(dep), dep.name)
    }

    /// The provider callback is asked: there is a choice of packages, and none that is installed is
    /// to be preferred.
    pub open spec fn asks(self, dep: DependV, target: bool) -> bool {
        &&& self.provider is Some
        &&& self.candidates(dep).len() > 1
        &&& target || seqs::first(self.candidates(dep), self.installed()) is None
    }

    /// The AUR package that is picked for the dependency.
    ///
    /// Without a provider callback it is the one that is found first. With one, and unless it is
    /// for a target, a package that is installed is picked. Otherwise the callback decides wherever
    /// there is more than one package to pick from.
    pub open spec fn select_aur(self, dep: DependV, target: bool) -> Option<Arc<AurPkg>> {
        match self.provider {
            None => self.find_aur(dep),
            Some(f) => {
                let names = self.candidates(dep);
                let here = seqs::first(names, self.installed());
                if !target && here is Some {
                    cache::lookup(self.cache, here->0)
                } else if names.len() == 0 {
                    None
                } else if names.len() == 1 {
                    cache::lookup(self.cache, names[0])
                } else {
                    cache::lookup(self.cache, self.offer(dep)[f(dep.text, self.offer(dep))])
                }
            },
        }
    }

    /// The dependency is met by a target from the AUR that has not been dealt with.
    pub open spec fn is_aur_targ(
        self,
        seen_target: Set<Seq<char>>,
        targs: Seq<Seq<char>>,
        dep: DependV,
    ) -> bool {
        self.find_aur(dep) matches Some(p) && exists|i: int|
            0 <= i < targs.len() && !seen_target.contains(#[trigger] targs[i])
                && satisfies::aur_ok(self.m, *p, (self.m.depend)(targs[i]), self.nover())
    }

    /// The package need not be built as the dependency is met already.
    pub open spec fn skip_aur(self, dep: DependV, is_target: bool) -> bool {
        &&& !is_target
        &&& !self.flags.has(Flags::RESOLVE_SATISFIED_PKGBUILDS)
        &&& self.assumed(dep) || self.sat_local(dep)
    }
}

/// The names of the packages.
pub open spec fn aur_names(pkgs: Seq<Arc<AurPkg>>) -> Seq<Seq<char>> {
    pkgs.map_values(|p: Arc<AurPkg>| p.name@)
}

/// The .SRCINFO has a package with the name.
pub open spec fn srcinfo_named<'a>(name: Seq<char>) -> spec_fn(&'a Srcinfo) -> bool {
    |s: &'a Srcinfo| s.pkg_index(name) < s.pkgs@.len()
}

/// The first package of the repos with the name.
pub open spec fn pkgbuild_named<'a>(repos: Seq<PkgbuildRepo<'a>>, name: Seq<char>) -> Option<
    Found<'a>,
>
    decreases repos.len(),
{
    if repos.len() == 0 {
        None
    } else {
        match seqs::first(repos[0].pkgs@, srcinfo_named(name)) {
            Some(s) => Some((repos[0].name@, s, &s.pkgs@[s.pkg_index(name)])),
            None => pkgbuild_named(repos.drop_first(), name),
        }
    }
}

/// The name equals the given one.
pub open spec fn is_name(name: Seq<char>) -> spec_fn(Seq<char>) -> bool {
    |n: Seq<char>| n == name
}

/// The order in which providers are offered: the package that has the very name, then the others
/// sorted.
pub open spec fn offered(names: Seq<Seq<char>>, name: Seq<char>) -> Seq<Seq<char>> {
    let k = seqs::first_at(names, is_name(name));
    if k < names.len() {
        seq![name] + text::sorted(names.remove(k))
    } else {
        text::sorted(names)
    }
}

impl<'a> St<'a> {
    /// Nothing has been dealt with.
    pub open spec fn start() -> St<'a> {
        St {
            resolved: Set::empty(),
            stack: Seq::empty(),
            missing: Seq::empty(),
            unneeded: Seq::empty(),
            build: Seq::empty(),
            install: Seq::empty(),
            seen: Set::empty(),
            seen_target: Set::empty(),
        }
    }

    /// One step further down the path.
    pub open spec fn push(self, pkg: Seq<char>, dep: Seq<char>) -> St<'a> {
        St { stack: self.stack.push(DepMissingV { pkg, dep }), ..self }
    }

    /// One step back up the path.
    pub open spec fn pop(self) -> St<'a> {
        St { stack: self.stack.drop_last(), ..self }
    }

    /// The dependency could not be satisfied.
    pub open spec fn miss(self, dep: Seq<char>) -> St<'a> {
        St { missing: self.missing.push(MissingV { dep, stack: self.stack }), ..self }
    }

    /// The target is up to date.
    pub open spec fn unneed(self, name: Seq<char>, version: Seq<char>) -> St<'a> {
        St { unneeded: self.unneeded.push(UnneededV { name, version }), ..self }
    }

    /// The dependency has been dealt with.
    pub open spec fn resolve(self, dep: Seq<char>) -> St<'a> {
        St { resolved: self.resolved.insert(dep), ..self }
    }

    /// The repo package is to be installed.
    pub open spec fn add_install(self, p: RepoPackage<'a>) -> St<'a> {
        St { install: self.install.push(p), ..self }
    }

    /// The AUR package is to be built.
    pub open spec fn add_aur(self, p: AurPackage) -> St<'a> {
        St { build: with_aur(self.build, p), ..self }
    }

    /// The package of a pkgbuild repo is to be built.
    pub open spec fn add_pkgbuild(
        self,
        repo: Seq<char>,
        srcinfo: &'a Srcinfo,
        p: Pkgbuild<'a>,
    ) -> St<'a> {
        St { build: with_pkgbuild(self.build, repo, srcinfo, p), ..self }
    }
}

/// The bases once the AUR package is to be built: it joins the last base where it is from the same
/// one, else it gets a base of its own, which is to be built unless the same one is built before.
pub open spec fn with_aur<'a>(build: Seq<BaseV<'a>>, p: AurPackage) -> Seq<BaseV<'a>> {
    let name = p.pkg.package_base@;
    if build.len() > 0 && build.last() is Aur && build.last().name() == name {
        let last = build.last();
        build.drop_last().push(
            BaseV::Aur { pkgs: last->Aur_pkgs.push(p), build: last->Aur_build },
        )
    } else {
        build.push(
            BaseV::Aur {
                pkgs: seq![p],
                build: !exists|i: int|
                    0 <= i < build.len() && (#[trigger] build[i]) is Aur && build[i].name() == name,
            },
        )
    }
}

/// The bases once the package of a pkgbuild repo is to be built.
pub open spec fn with_pkgbuild<'a>(
    build: Seq<BaseV<'a>>,
    repo: Seq<char>,
    srcinfo: &'a Srcinfo,
    p: Pkgbuild<'a>,
) -> Seq<BaseV<'a>> {
    let name = srcinfo.base.pkgbase@;
    if build.len() > 0 && build.last() is Pkgbuild && build.last().name() == name {
        let last = build.last();
        build.drop_last().push(
            BaseV::Pkgbuild {
                repo: last->repo,
                srcinfo: last->srcinfo,
                pkgs: last->Pkgbuild_pkgs.push(p),
                build: last->Pkgbuild_build,
            },
        )
    } else {
        build.push(
            BaseV::Pkgbuild {
                repo,
                srcinfo,
                pkgs: seq![p],
                build: !exists|i: int|
                    0 <= i < build.len() && (#[trigger] build[i]) is Pkgbuild && build[i].name()
                        == name,
            },
        )
    }
}

} // verus!
