//! What the resolver asks of the databases, the repos, the cache and the actions so far.
use std::sync::Arc;
use vstd::prelude::*;
use crate::alpm;
use crate::alpm::{Alpm, AlpmPkg};
use crate::base::Base;
use crate::cache;
use crate::cb::Group;
use crate::depend::Depend;
use crate::flags::Flags;
use crate::model;
use crate::pkg;
use crate::pkg::{AurPkg, Srcinfo, SrcinfoPkg};
use crate::resolve::choice;
use crate::resolve::Resolver;
use crate::satisfies;
use crate::satisfies::Satisfies;
use crate::seqs;
use crate::target::Targ;
use crate::text;

verus! {

impl<
    'a,
    A: Alpm,
    P: Fn(&str, &[String]) -> usize,
    G: Fn(&[Group<'a>]) -> Vec<&'a AlpmPkg>,
    D: Fn(&str) -> bool,
> Resolver<'a, A, P, G, D> {
    /// Are version constraints ignored.
    pub(crate) fn nover(&self) -> (r: bool)
        ensures
            r == self.env().nover(),
    {
        self.flags.contains(Flags::NO_DEP_VERSION)
    }

    /// The installed package with the name.
    pub(crate) fn local_pkg(&self, name: &String) -> (r: Option<&'a AlpmPkg>)
        requires
            self.able(),
        ensures
            r == alpm::as_ref(self.env().local_pkg(name@)),
    {
        let local = &self.alpm.system().localdb;
        let mut i: usize = 0;
        while i < local.len()
            invariant
                i <= local.len(),
                forall|j: int| 0 <= j < i ==> !model::alpm_named(name@)(#[trigger] local@[j]),
                self.env().m.system.localdb == *local,
            decreases local.len() - i,
        {
            if local[i].name == *name {
                proof {
                    seqs::lemma_first_at(local@, model::alpm_named(name@), i as int);
                }
                return Some(&local[i]);
            }
            i = i + 1;
        }
        proof {
            seqs::lemma_first_at(local@, model::alpm_named(name@), i as int);
        }
        None
    }

    /// Is the dependency met by something that is to be taken as installed.
    pub fn assume_installed(&self, dep: &Depend) -> (r: bool)
        requires
            self.able(),
        ensures
            r == self.env().assumed(dep@),
    {
        let given = &self.alpm.system().assume_installed;
        let nover = self.nover();
        let mut i: usize = 0;
        while i < given.len()
            invariant
                self.able(),
                i <= given.len(),
                *given == self.env().m.system.assume_installed,
                nover == self.env().nover(),
                forall|j: int|
                    0 <= j < i ==> !#[trigger] satisfies::provide_ok(
                        self.env().m,
                        dep@,
                        given@[j]@,
                        nover,
                    ),
            decreases given.len() - i,
        {
            if satisfies::satisfies_provide(self.alpm, dep, &given[i], nover) {
                proof {
                    assert(satisfies::provide_ok(self.env().m, dep@, given@[i as int]@, nover));
                }
                return true;
            }
            i = i + 1;
        }
        false
    }

    /// Is the dependency met by an installed package.
    pub fn satisfied_local(&self, target: &Depend) -> (r: bool)
        requires
            self.able(),
        ensures
            r == self.env().sat_local(target@),
    {
        let nover = self.nover();
        if let Some(pkg) = self.local_pkg(&target.name) {
            if pkg.satisfies_dep(self.alpm, target, nover) {
                return true;
            }
        }
        if nover {
            self.alpm.local_satisfier(target.name.as_str())
        } else {
            self.alpm.local_satisfier(target.text.as_str())
        }
    }

    /// Is the dependency met by a package that is to be installed.
    pub fn satisfied_install(&self, target: &Depend) -> (r: bool)
        requires
            self.able(),
        ensures
            r == self.env().sat_install(self.st().install, target@),
    {
        let nover = self.nover();
        let mut i: usize = 0;
        while i < self.actions.install.len()
            invariant
                self.able(),
                i <= self.actions.install.len(),
                nover == self.env().nover(),
                forall|j: int|
                    0 <= j < i ==> !satisfies::alpm_ok(
                        self.env().m,
                        *(#[trigger] self.st().install[j]).pkg,
                        target@,
                        nover,
                    ),
            decreases self.actions.install.len() - i,
        {
            if self.actions.install[i].pkg.satisfies_dep(self.alpm, target, nover) {
                proof {
                    assert(satisfies::alpm_ok(
                        self.env().m,
                        *self.st().install[i as int].pkg,
                        target@,
                        nover,
                    ));
                }
                return true;
            }
            i = i + 1;
        }
        false
    }

    /// Is the dependency met by a package of the base.
    fn satisfied_base(&self, base: &Base<'a>, target: &Depend) -> (r: bool)
        requires
            self.able(),
        ensures
            r == self.env().sat_base(base@, target@),
    {
        let nover = self.nover();
        let mut i: usize = 0;
        match base {
            Base::Aur(b) => {
                while i < b.pkgs.len()
                    invariant
                        self.able(),
                        i <= b.pkgs.len(),
                        *base == Base::<'a>::Aur(*b),
                        nover == self.env().nover(),
                        forall|j: int|
                            0 <= j < i ==> !satisfies::aur_ok(
                                self.env().m,
                                *(#[trigger] base@->Aur_pkgs[j]).pkg,
                                target@,
                                nover,
                            ),
                    decreases b.pkgs.len() - i,
                {
                    if b.pkgs[i].pkg.satisfies_dep(self.alpm, target, nover) {
                        proof {
                            assert(satisfies::aur_ok(
                                self.env().m,
                                *base@->Aur_pkgs[i as int].pkg,
                                target@,
                                nover,
                            ));
                        }
                        return true;
                    }
                    i = i + 1;
                }
            },
            Base::Pkgbuild(b) => {
                while i < b.pkgs.len()
                    invariant
                        self.able(),
                        i <= b.pkgs.len(),
                        *base == Base::<'a>::Pkgbuild(*b),
                        nover == self.env().nover(),
                        forall|j: int|
                            0 <= j < i ==> !satisfies::srcinfo_ok(
                                self.env().m,
                                *b.srcinfo,
                                *(#[trigger] base@->Pkgbuild_pkgs[j]).pkg,
                                target@,
                                nover,
                            ),
                    decreases b.pkgs.len() - i,
                {
                    if (b.srcinfo, b.pkgs[i].pkg).satisfies_dep(self.alpm, target, nover) {
                        proof {
                            assert(satisfies::srcinfo_ok(
                                self.env().m,
                                *b.srcinfo,
                                *base@->Pkgbuild_pkgs[i as int].pkg,
                                target@,
                                nover,
                            ));
                        }
                        return true;
                    }
                    i = i + 1;
                }
            },
        }
        false
    }

    /// Is the dependency met by a package that is to be built.
    pub fn satisfied_build(&self, target: &Depend) -> (r: bool)
        requires
            self.able(),
        ensures
            r == self.env().sat_build(self.st().build, target@),
    {
        let mut i: usize = 0;
        while i < self.actions.build.len()
            invariant
                self.able(),
                i <= self.actions.build.len(),
                forall|j: int|
                    0 <= j < i ==> !self.env().sat_base(#[trigger] self.st().build[j], target@),
            decreases self.actions.build.len() - i,
        {
            if self.satisfied_base(&self.actions.build[i], target) {
                proof {
                    assert(self.env().sat_base(self.st().build[i as int], target@));
                }
                return true;
            }
            i = i + 1;
        }
        false
    }

    /// The string with which packages are looked up.
    pub(crate) fn query(&self, s: &String) -> (r: String)
        ensures
            r@ == self.env().query(s@),
    {
        if self.nover() {
            text::without_ver(s.as_str())
        } else {
            s.clone()
        }
    }

    /// The sync package that meets the dependency string.
    pub fn find_repo_satisfier(&self, target: &String) -> (r: Option<&'a AlpmPkg>)
        requires
            self.able(),
        ensures
            r == alpm::as_ref(self.env().repo_sat(target@)),
            r matches Some(p) ==> alpm::in_syncdbs(self.env().m.system, *p),
    {
        let target = self.query(target);
        self.alpm.repo_satisfier(target.as_str())
    }

    /// The sync package that meets the dependency string, with no question asked.
    pub fn find_repo_satisfier_silent(&self, target: &String) -> (r: Option<&'a AlpmPkg>)
        requires
            self.able(),
        ensures
            r == alpm::as_ref(self.env().repo_sat_silent(target@)),
    {
        let target = self.query(target);
        self.alpm.repo_satisfier_silent(target.as_str())
    }

    /// The sync package that meets the target.
    pub fn find_repo_target_satisfier(&self, target: &Targ) -> (r: Option<&'a AlpmPkg>)
        requires
            self.able(),
        ensures
            r == alpm::as_ref(self.env().target_sat(target@)),
            r matches Some(p) ==> alpm::in_syncdbs(self.env().m.system, *p),
    {
        let target = Targ { repo: target.repo.clone(), pkg: self.query(&target.pkg) };
        self.alpm.target_satisfier(&target)
    }

    /// The first .SRCINFO with a package that meets the dependency, and the package.
    fn find_srcinfo_dep(&self, pkgs: &Vec<&'a Srcinfo>, dep: &Depend) -> (r: Option<
        (&'a Srcinfo, &'a SrcinfoPkg),
    >)
        requires
            self.able(),
        ensures
            r == self.env().srcinfo_dep(pkgs@, dep@),
    {
        let nover = self.nover();
        let ghost p = self.env().srcinfo_has(dep@);
        let mut i: usize = 0;
        while i < pkgs.len()
            invariant
                self.able(),
                i <= pkgs.len(),
                nover == self.env().nover(),
                p == self.env().srcinfo_has(dep@),
                forall|j: int| 0 <= j < i ==> !p(#[trigger] pkgs@[j]),
            decreases pkgs.len() - i,
        {
            let base: &'a Srcinfo = pkgs[i];
            if let Some(name) = base.which_satisfies_dep(self.alpm, dep, nover) {
                proof {
                    let k = satisfies::srcinfo_index(
                        self.env().m,
                        *base,
                        base.pkgs@,
                        dep@,
                        nover,
                    );
                    satisfies::lemma_srcinfo_index(self.env().m, *base, base.pkgs@, dep@, nover);
                    pkg::lemma_pkg_index(base.pkgs@, k);
                    assert(p(pkgs@[i as int]));
                    seqs::lemma_first_at(pkgs@, p, i as int);
                }
                return match base.pkg(name) {
                    Some(pkg) => Some((base, pkg)),
                    None => None,
                };
            }
            i = i + 1;
        }
        proof {
            seqs::lemma_first_at(pkgs@, p, i as int);
        }
        None
    }

    /// The first package of a pkgbuild repo that meets the dependency. With `repo_targ`, only repos
    /// of that name count.
    pub fn find_pkgbuild_repo_dep(&self, repo_targ: Option<&String>, dep: &Depend) -> (r: Option<
        (&String, &'a Srcinfo, &'a SrcinfoPkg),
    >)
        requires
            self.able(),
        ensures
            match r {
                Some(f) => self.env().pkgbuild_dep(str_of(repo_targ), dep@) == Some(
                    (f.0@, f.1, f.2),
                ),
                None => self.env().pkgbuild_dep(str_of(repo_targ), dep@) is None,
            },
    {
        let ghost repo = str_of(repo_targ);
        let mut i: usize = 0;
        proof {
            assert(self.repos@.skip(0) =~= self.repos@);
        }
        while i < self.repos.len()
            invariant
                self.able(),
                i <= self.repos.len(),
                repo == str_of(repo_targ),
                self.env().pkgbuild_dep(repo, dep@) == self.env().pkgbuild_dep_in(
                    self.repos@.skip(i as int),
                    repo,
                    dep@,
                ),
            decreases self.repos.len() - i,
        {
            proof {
                assert(self.repos@.skip(i as int).drop_first() =~= self.repos@.skip(i + 1));
            }
            let wanted = match repo_targ {
                Some(name) => self.repos[i].name == *name,
                None => true,
            };
            if wanted {
                if let Some((base, pkg)) = self.find_srcinfo_dep(&self.repos[i].pkgs, dep) {
                    return Some((&self.repos[i].name, base, pkg));
                }
            }
            i = i + 1;
        }
        None
    }

    /// The first package of a pkgbuild repo with the name.
    pub fn find_pkgbuild(&self, name: &String) -> (r: Option<(&String, &'a Srcinfo, &'a SrcinfoPkg)>)
        ensures
            match r {
                Some(f) => model::pkgbuild_named(self.env().repos, name@) == Some(
                    (f.0@, f.1, f.2),
                ),
                None => model::pkgbuild_named(self.env().repos, name@) is None,
            },
    {
        let ghost p = model::srcinfo_named::<'a>(name@);
        let mut i: usize = 0;
        proof {
            assert(self.repos@.skip(0) =~= self.repos@);
        }
        while i < self.repos.len()
            invariant
                i <= self.repos.len(),
                p == model::srcinfo_named::<'a>(name@),
                model::pkgbuild_named(self.env().repos, name@) == model::pkgbuild_named(
                    self.repos@.skip(i as int),
                    name@,
                ),
            decreases self.repos.len() - i,
        {
            proof {
                assert(self.repos@.skip(i as int).drop_first() =~= self.repos@.skip(i + 1));
            }
            let pkgs = &self.repos[i].pkgs;
            let mut k: usize = 0;
            while k < pkgs.len()
                invariant
                    i < self.repos.len(),
                    k <= pkgs.len(),
                    *pkgs == self.repos@[i as int].pkgs,
                    p == model::srcinfo_named::<'a>(name@),
                    model::pkgbuild_named(self.env().repos, name@) == model::pkgbuild_named(
                        self.repos@.skip(i as int),
                        name@,
                    ),
                    forall|j: int| 0 <= j < k ==> !p(#[trigger] pkgs@[j]),
                decreases pkgs.len() - k,
            {
                let base: &'a Srcinfo = pkgs[k];
                if let Some(pkg) = base.pkg(name) {
                    proof {
                        assert(p(pkgs@[k as int]));
                        seqs::lemma_first_at(pkgs@, p, k as int);
                    }
                    return Some((&self.repos[i].name, base, pkg));
                }
                k = k + 1;
            }
            proof {
                seqs::lemma_first_at(pkgs@, p, k as int);
            }
            i = i + 1;
        }
        None
    }

    /// Is there a package of a pkgbuild repo with the name.
    pub fn is_pkgbuild(&self, name: &String) -> (r: bool)
        ensures
            r == (model::pkgbuild_named(self.env().repos, name@) is Some),
    {
        self.find_pkgbuild(name).is_some()
    }

    /// The AUR package that meets the dependency: one that is installed, else the one that the
    /// dependency names, else any.
    pub fn find_satisfier_aur_cache(&self, dep: &Depend) -> (r: Option<Arc<AurPkg>>)
        requires
            self.able(),
        ensures
            r == self.env().find_aur(dep@),
    {
        let nover = self.nover();
        let ghost p = self.env().aur_sat_installed(dep@);
        let ghost q = self.env().aur_sat(dep@);
        let ghost c = self.env().cache;
        let mut i: usize = 0;
        while i < self.cache.len()
            invariant
                self.able(),
                i <= c.len(),
                c == self.cache@,
                c == self.env().cache,
                nover == self.env().nover(),
                p == self.env().aur_sat_installed(dep@),
                forall|j: int| 0 <= j < i ==> !p(#[trigger] c[j]),
            decreases c.len() - i,
        {
            let pkg = self.cache.at(i);
            if self.local_pkg(&pkg.name).is_some() && pkg.satisfies_dep(self.alpm, dep, nover) {
                proof {
                    assert(p(c[i as int]));
                    seqs::lemma_first_at(c, p, i as int);
                }
                return Some(pkg.clone());
            }
            i = i + 1;
        }
        proof {
            seqs::lemma_first_at(c, p, i as int);
        }
        if let Some(pkg) = self.cache.get(&dep.name) {
            if pkg.satisfies_dep(self.alpm, dep, nover) {
                return Some(pkg.clone());
            }
        }
        let mut i: usize = 0;
        while i < self.cache.len()
            invariant
                self.able(),
                i <= c.len(),
                c == self.cache@,
                c == self.env().cache,
                nover == self.env().nover(),
                q == self.env().aur_sat(dep@),
                seqs::first(c, q) == self.env().find_aur(dep@),
                forall|j: int| 0 <= j < i ==> !q(#[trigger] c[j]),
            decreases c.len() - i,
        {
            let pkg = self.cache.at(i);
            if pkg.satisfies_dep(self.alpm, dep, nover) {
                proof {
                    assert(q(c[i as int]));
                    seqs::lemma_first_at(c, q, i as int);
                }
                return Some(pkg.clone());
            }
            i = i + 1;
        }
        proof {
            seqs::lemma_first_at(c, q, i as int);
        }
        None
    }

    /// The names of the AUR packages that meet the dependency.
    fn candidates(&self, dep: &Depend) -> (r: Vec<String>)
        requires
            self.able(),
        ensures
            text::strs(r@) == self.env().candidates(dep@),
    {
        let nover = self.nover();
        let ghost p = self.env().aur_sat(dep@);
        let ghost c = self.env().cache;
        let mut r: Vec<String> = Vec::new();
        let mut i: usize = 0;
        proof {
            reveal(Seq::filter);
            assert(text::strs(r@) =~= model::aur_names(c.take(0).filter(p)));
        }
        while i < self.cache.len()
            invariant
                self.able(),
                i <= c.len(),
                c == self.cache@,
                c == self.env().cache,
                nover == self.env().nover(),
                p == self.env().aur_sat(dep@),
                text::strs(r@) == model::aur_names(c.take(i as int).filter(p)),
            decreases c.len() - i,
        {
            let ghost before = r@;
            let pkg = self.cache.at(i);
            proof {
                reveal(Seq::filter);
                assert(c.take(i + 1).drop_last() =~= c.take(i as int));
                assert(c.take(i + 1).last() == c[i as int]);
            }
            if pkg.satisfies_dep(self.alpm, dep, nover) {
                r.push(pkg.name.clone());
                proof {
                    assert(p(c[i as int]));
                    assert(text::strs(r@) =~= text::strs(before).push(pkg.name@));
                    assert(model::aur_names(c.take(i + 1).filter(p)) =~= model::aur_names(
                        c.take(i as int).filter(p),
                    ).push(pkg.name@));
                }
            } else {
                assert(!p(c[i as int]));
            }
            i = i + 1;
        }
        proof {
            assert(c.take(i as int) =~= c);
        }
        r
    }

    /// Picks the AUR package for the dependency.
    ///
    /// Pulls in a list of all matches, and if one is installed, defaults to it. Unless we are
    /// looking for a target, then always shows all options.
    ///
    /// Whatever the provider callback answers, the package meets the dependency.
    pub fn select_satisfier_aur_cache(&self, dep: &Depend, target: bool) -> (r: Option<Arc<AurPkg>>)
        requires
            self.able(),
        ensures
            self.wf() ==> r == self.env().select_aur(dep@, target),
            !self.env().asks(dep@, target) ==> r == self.env().select_aur(dep@, target),
            self.env().asks(dep@, target) ==> exists|k: int|
                0 <= k < self.env().offer(dep@).len() && #[trigger] self.may_choose(
                    dep@.text,
                    self.env().offer(dep@),
                    k,
                ) && r == cache::lookup(self.env().cache, self.env().offer(dep@)[k]),
            r matches Some(p) ==> satisfies::aur_ok(
                self.env().m,
                *p,
                dep@,
                self.env().nover(),
            ),
            r is None <==> !seqs::any(self.env().cache, self.env().aur_sat(dep@)),
    {
        proof {
            self.lemma_able();
            if !self.env().asks(dep@, target) {
                choice::law_select(self.env(), dep@, target);
            }
        }
        let f = match self.provider_callback.get() {
            Some(f) => f,
            None => {
                return self.find_satisfier_aur_cache(dep);
            },
        };
        let pkgs = self.candidates(dep);
        let ghost names = text::strs(pkgs@);
        let ghost p = self.env().installed();
        if !target {
            let mut i: usize = 0;
            while i < pkgs.len()
                invariant
                    self.able(),
                    i <= pkgs.len(),
                    !target,
                    self.env().provider is Some,
                    names == text::strs(pkgs@),
                    names == self.env().candidates(dep@),
                    p == self.env().installed(),
                    cache::distinct(self.env().cache),
                    forall|j: int| 0 <= j < i ==> !p(#[trigger] names[j]),
                decreases pkgs.len() - i,
            {
                if self.local_pkg(&pkgs[i]).is_some() {
                    proof {
                        assert(p(names[i as int]));
                        seqs::lemma_first_at(names, p, i as int);
                        choice::law_select(self.env(), dep@, target);
                    }
                    return cloned(self.cache.get(&pkgs[i]));
                }
                assert(!p(names[i as int]));
                i = i + 1;
            }
            proof {
                seqs::lemma_first_at(names, p, i as int);
            }
        }
        if pkgs.len() == 1 {
            return cloned(self.cache.get(&pkgs[0]));
        } else if pkgs.len() == 0 {
            return None;
        }
        let ghost env = self.env();
        let offer = offer(pkgs, &dep.name);
        proof {
            assert(env.asks(dep@, target));
            choice::law_offered(env, dep@, 0);
        }
        let choice = f(dep.text.as_str(), offer.as_slice());
        proof {
            assert(self.may_choose(dep@.text, text::strs(offer@), choice as int));
            choice::law_offered(env, dep@, choice as int);
        }
        cloned(self.cache.get(&offer[choice]))
    }

    /// Is the dependency met by a target from the AUR that has not been dealt with.
    pub fn dep_is_aur_targ(&self, targs: &Vec<String>, dep: &Depend) -> (r: bool)
        requires
            self.able(),
        ensures
            r == self.env().is_aur_targ(self.st().seen_target, text::strs(targs@), dep@),
    {
        let nover = self.nover();
        let ghost names = text::strs(targs@);
        if let Some(pkg) = self.find_satisfier_aur_cache(dep) {
            let mut i: usize = 0;
            while i < targs.len()
                invariant
                    self.able(),
                    i <= targs.len(),
                    nover == self.env().nover(),
                    names == text::strs(targs@),
                    self.env().find_aur(dep@) == Some(pkg),
                    forall|j: int|
                        0 <= j < i ==> self.st().seen_target.contains(#[trigger] names[j])
                            || !satisfies::aur_ok(
                            self.env().m,
                            *pkg,
                            (self.env().m.depend)(names[j]),
                            nover,
                        ),
                decreases targs.len() - i,
            {
                let ghost name = names[i as int];
                if !self.seen_target.contains(targs[i].as_str()) {
                    let targ = self.alpm.depend(targs[i].as_str());
                    if pkg.satisfies_dep(self.alpm, &targ, nover) {
                        return true;
                    }
                }
                i = i + 1;
            }
        }
        false
    }

    /// Need the package not be built as the dependency is met already.
    pub fn should_skip_aur_pkg(&self, dep: &Depend, is_target: bool) -> (r: bool)
        requires
            self.able(),
        ensures
            r == self.env().skip_aur(dep@, is_target),
    {
        if is_target {
            return false;
        }
        if self.flags.contains(Flags::RESOLVE_SATISFIED_PKGBUILDS) {
            return false;
        }
        self.assume_installed(dep) || self.satisfied_local(dep)
    }
}

/// An optional name over characters.
pub open spec fn str_of(s: Option<&String>) -> Option<Seq<char>> {
    match s {
        Some(s) => Some(s@),
        None => None,
    }
}

/// The package by value.
fn cloned(p: Option<&Arc<AurPkg>>) -> (r: Option<Arc<AurPkg>>)
    ensures
        p == alpm::as_ref(r),
{
    match p {
        Some(p) => Some(p.clone()),
        None => None,
    }
}

/// Is the name among the names.
pub(crate) fn has_name(names: &Vec<String>, name: &String) -> (r: bool)
    ensures
        r == text::strs(names@).contains(name@),
{
    let mut i: usize = 0;
    while i < names.len()
        invariant
            i <= names.len(),
            forall|j: int| 0 <= j < i ==> #[trigger] text::strs(names@)[j] != name@,
        decreases names.len() - i,
    {
        if names[i] == *name {
            assert(text::strs(names@)[i as int] == name@);
            return true;
        }
        i = i + 1;
    }
    false
}

/// Puts providers in the order in which they are offered.
fn offer(names: Vec<String>, name: &String) -> (r: Vec<String>)
    ensures
        text::strs(r@) == model::offered(text::strs(names@), name@),
        r@.len() == names@.len(),
{
    let ghost all = text::strs(names@);
    let ghost p = model::is_name(name@);
    let mut names = names;
    let mut k: usize = 0;
    while k < names.len() && names[k] != *name
        invariant
            k <= names.len(),
            all == text::strs(names@),
            p == model::is_name(name@),
            forall|j: int| 0 <= j < k ==> !p(#[trigger] all[j]),
        decreases names.len() - k,
    {
        assert(!p(all[k as int]));
        k = k + 1;
    }
    proof {
        assert(k < all.len() ==> p(all[k as int]));
        seqs::lemma_first_at(all, p, k as int);
    }
    if k < names.len() {
        let first = names.remove(k);
        proof {
            assert(text::strs(names@) =~= all.remove(k as int));
            text::lemma_sorted(all.remove(k as int));
        }
        let mut rest = text::sort_names(names);
        let mut r: Vec<String> = Vec::new();
        r.push(first);
        r.append(&mut rest);
        proof {
            assert(text::strs(r@) =~= model::offered(all, name@));
        }
        r
    } else {
        proof {
            text::lemma_sorted(all);
        }
        text::sort_names(names)
    }
}

} // verus!
