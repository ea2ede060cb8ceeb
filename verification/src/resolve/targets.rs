//! Resolving targets.
use vstd::prelude::*;
use crate::actions;
use crate::actions::Unneeded;
use crate::alpm::{Alpm, AlpmPkg};
use crate::base::{BaseV, Package};
use crate::cb::Group;
use crate::depend::VerOrder;
use crate::flags::Flags;
use crate::model::{Env, St};
use crate::pkg::AurOrPkgbuild;
use crate::resolve::aur_tree;
use crate::resolve::queries::has_name;
use crate::resolve::split::{Targets, TargetsV};
use crate::resolve::tree;
use crate::resolve::Resolver;
use crate::seqs;
use crate::target::{Targ, TargV};
use crate::text;

verus! {

impl<'a> Env<'a> {
    /// The version that is installed, where a package with the name is installed that is not older
    /// than `version`.
    pub open spec fn up_to_date(self, name: Seq<char>, version: Seq<char>) -> Option<Seq<char>> {
        match self.local_pkg(name) {
            Some(p) if (self.m.vercmp)(p.version@, version) != VerOrder::Less => Some(p.version@),
            _ => None,
        }
    }

    /// The package is a devel package.
    pub open spec fn is_devel(self, name: Seq<char>) -> bool {
        self.devel matches Some(f) && f(name)
    }

    /// Targets that are up to date are passed over: those that are asked for as targets with NEEDED,
    /// and dependencies unless they are to be pulled in even if they are satisfied.
    pub open spec fn passes_over(self, is_target: bool) -> bool {
        ||| self.flags.has(Flags::NEEDED)
        ||| !is_target && !self.flags.has(Flags::RESOLVE_SATISFIED_PKGBUILDS)
    }

    /// The target of that name need not be built, as the package of the second name is up to date.
    /// Gives the version that is installed.
    pub open spec fn unneeded(
        self,
        targ: Seq<char>,
        name: Seq<char>,
        version: Seq<char>,
        is_target: bool,
    ) -> Option<Seq<char>> {
        if self.passes_over(is_target) && !self.is_devel(targ) {
            self.up_to_date(name, version)
        } else {
            None
        }
    }
}

/// A package with the name is to be built.
pub open spec fn builds(build: Seq<BaseV<'_>>, name: Seq<char>) -> bool {
    exists|i: int| 0 <= i < build.len() && (#[trigger] build[i]).names().contains(name)
}

/// The target from a sync database is met already, as an installed package meets it.
pub open spec fn repo_met<'a>(env: Env<'a>, targ: TargV, is_target: bool) -> bool {
    !is_target && (env.m.local_satisfier)(env.query(targ.pkg))
}

/// The version that is installed, where the target from a sync database need not be installed.
pub open spec fn repo_unneeded<'a>(env: Env<'a>, targ: TargV, pkg: AlpmPkg) -> Option<Seq<char>> {
    if env.flags.has(Flags::NEEDED) && !env.is_devel(targ.pkg) {
        env.up_to_date(pkg.name@, pkg.version@)
    } else {
        None
    }
}

/// Resolving a target that comes from a sync database. A package that was pulled in before is noted
/// as asked for.
pub open spec fn repo_target<'a>(
    env: Env<'a>,
    st: St<'a>,
    targ: TargV,
    pkg: &'a AlpmPkg,
    make: Seq<Seq<char>>,
    is_target: bool,
) -> St<'a> {
    if repo_met(env, targ, is_target) {
        st
    } else {
        match repo_unneeded(env, targ, *pkg) {
            Some(version) => st.unneed(targ.text(), version),
            None => tree::repo_pkg(
                env,
                tree::repo_depth(env),
                st.push(pkg.name@, targ.pkg),
                pkg,
                is_target,
                make.contains(targ.pkg),
            ).pop().mark_install(pkg.name@, make.contains(targ.pkg), is_target),
        }
    }
}

/// Resolving a target that comes from a pkgbuild repo. It is make only where it is asked for as a
/// make dependency. Where it is not, nor are the dependencies that it needs to run.
pub open spec fn pkgbuild_target<'a>(
    env: Env<'a>,
    st: St<'a>,
    targ: TargV,
    make: Seq<Seq<char>>,
    is_target: bool,
    targs: Seq<Seq<char>>,
) -> St<'a> {
    let dep = (env.m.depend)(targ.pkg);
    if env.skip_aur(dep, is_target) {
        st
    } else {
        match env.pkgbuild_dep(targ.repo, dep) {
            None => st.miss(dep.text),
            Some((repo, srcinfo, pkg)) => match env.unneeded(
                targ.pkg,
                pkg.pkgname@,
                srcinfo.full_version(),
                is_target,
            ) {
                Some(version) => st.unneed(targ.text(), version),
                None => {
                    let s = aur_tree::pkg_deps(
                        env,
                        env.depth(),
                        st.push(pkg.pkgname@, targ.pkg),
                        targs,
                        AurOrPkgbuild::Pkgbuild(srcinfo, pkg),
                        make.contains(targ.pkg),
                    ).pop();
                    let make = make.contains(targ.pkg);
                    if builds(s.build, pkg.pkgname@) {
                        s.mark_build(pkg.pkgname@, make, is_target)
                    } else {
                        s.add_pkgbuild(
                            repo,
                            srcinfo,
                            Package { pkg, make, target: is_target },
                        )
                    }
                },
            },
        }
    }
}

/// Resolving a target that comes from the AUR. It is make only where it is asked for as a make
/// dependency. Where it is not, nor are the dependencies that it needs to run.
pub open spec fn aur_target<'a>(
    env: Env<'a>,
    st: St<'a>,
    targ: Seq<char>,
    make: Seq<Seq<char>>,
    is_target: bool,
    targs: Seq<Seq<char>>,
) -> St<'a> {
    let dep = (env.m.depend)(targ);
    let st = St { seen_target: st.seen_target.insert(targ), ..st };
    if env.skip_aur(dep, is_target) {
        st
    } else {
        match env.select_aur(dep, is_target) {
            None => st.miss(dep.text),
            Some(p) => match env.unneeded(targ, p.name@, p.version@, is_target) {
                Some(version) => st.unneed(targ, version),
                None => {
                    let s = aur_tree::pkg_deps(
                        env,
                        env.depth(),
                        st.push(p.name@, targ),
                        targs,
                        AurOrPkgbuild::Aur(&*p),
                        make.contains(targ),
                    ).pop();
                    let make = make.contains(targ);
                    if builds(s.build, p.name@) {
                        s.mark_build(p.name@, make, is_target)
                    } else {
                        s.add_aur(Package { pkg: p, make, target: is_target })
                    }
                },
            },
        }
    }
}

/// Resolving the targets that come from sync databases.
pub open spec fn repo_targets<'a>(
    env: Env<'a>,
    st: St<'a>,
    ts: Seq<(TargV, &'a AlpmPkg)>,
    make: Seq<Seq<char>>,
    is_target: bool,
) -> St<'a>
    decreases ts.len(),
{
    if ts.len() == 0 {
        st
    } else {
        repo_targets(
            env,
            repo_target(env, st, ts[0].0, ts[0].1, make, is_target),
            ts.drop_first(),
            make,
            is_target,
        )
    }
}

/// Resolving the targets that come from pkgbuild repos.
pub open spec fn pkgbuild_targets<'a>(
    env: Env<'a>,
    st: St<'a>,
    ts: Seq<TargV>,
    make: Seq<Seq<char>>,
    is_target: bool,
    targs: Seq<Seq<char>>,
) -> St<'a>
    decreases ts.len(),
{
    if ts.len() == 0 {
        st
    } else {
        pkgbuild_targets(
            env,
            pkgbuild_target(env, st, ts[0], make, is_target, targs),
            ts.drop_first(),
            make,
            is_target,
            targs,
        )
    }
}

/// Resolving the targets that come from the AUR.
pub open spec fn aur_targets<'a>(
    env: Env<'a>,
    st: St<'a>,
    ts: Seq<Seq<char>>,
    make: Seq<Seq<char>>,
    is_target: bool,
    targs: Seq<Seq<char>>,
) -> St<'a>
    decreases ts.len(),
{
    if ts.len() == 0 {
        st
    } else {
        aur_targets(
            env,
            aur_target(env, st, ts[0], make, is_target, targs),
            ts.drop_first(),
            make,
            is_target,
            targs,
        )
    }
}

/// Resolving all the targets: those of sync databases, of pkgbuild repos, then of the AUR.
pub open spec fn all_targets<'a>(
    env: Env<'a>,
    st: St<'a>,
    t: TargetsV<'a>,
    make: Seq<Seq<char>>,
    is_target: bool,
) -> St<'a> {
    let s1 = repo_targets(env, st, t.repo, make, is_target);
    let s2 = pkgbuild_targets(env, s1, t.pkgbuild, make, is_target, t.aur);
    aur_targets(env, s2, t.aur, make, is_target, t.aur)
}

/// The packages that the targets name.
pub open spec fn pkg_parts(ts: Seq<TargV>) -> Seq<Seq<char>> {
    ts.map_values(|t: TargV| t.pkg)
}

/// What resolving the targets comes to, once all that they need has been looked up.
pub open spec fn outcome<'a>(
    env: Env<'a>,
    st: St<'a>,
    t: TargetsV<'a>,
    make_deps: Seq<TargV>,
    is_target: bool,
) -> St<'a> {
    let s = all_targets(
        env,
        St { resolved: Set::empty(), ..st },
        t,
        pkg_parts(make_deps),
        is_target,
    );
    if env.flags.has(Flags::CALCULATE_MAKE) {
        s.with_makes(s.make_only(env))
    } else {
        s
    }
}

impl<
    'a,
    A: Alpm,
    P: Fn(&str, &[String]) -> usize,
    G: Fn(&[Group<'a>]) -> Vec<&'a AlpmPkg>,
    D: Fn(&str) -> bool,
> Resolver<'a, A, P, G, D> {
    /// The version that is installed, where a package with the name is installed that is not older.
    fn up_to_date(&self, name: &String, version: &String) -> (r: Option<String>)
        requires
            self.wf(),
        ensures
            text::opt_str(r) == self.env().up_to_date(name@, version@),
    {
        if let Some(local) = self.local_pkg(name) {
            if self.alpm.vercmp(local.version.as_str(), version.as_str()) != VerOrder::Less {
                return Some(local.version.clone());
            }
        }
        None
    }

    /// Is the package a devel package.
    fn devel(&self, name: &String) -> (r: bool)
        requires
            self.wf(),
        ensures
            r == self.env().is_devel(name@),
    {
        match self.is_devel.get() {
            Some(f) => f(name.as_str()),
            None => false,
        }
    }

    /// The version that is installed, where the target need not be built.
    fn not_needed(
        &self,
        targ: &String,
        name: &String,
        version: &String,
        is_target: bool,
    ) -> (r: Option<String>)
        requires
            self.wf(),
        ensures
            text::opt_str(r) == self.env().unneeded(targ@, name@, version@, is_target),
    {
        if !self.flags.contains(Flags::NEEDED) && (is_target || self.flags.contains(
            Flags::RESOLVE_SATISFIED_PKGBUILDS,
        )) {
            return None;
        }
        if self.devel(targ) {
            return None;
        }
        self.up_to_date(name, version)
    }

    /// Notes that a target is up to date.
    fn push_unneeded(&mut self, name: String, version: String)
        requires
            old(self).wf(),
        ensures
            final(self).wf(),
            final(self).env() == old(self).env(),
            final(self).st() == old(self).st().unneed(name@, version@),
    {
        let ghost before = self.actions.unneeded@;
        self.actions.unneeded.push(Unneeded::new(name, version));
        proof {
            assert(self.st().unneeded =~= actions::unneededs(before).push(
                actions::UnneededV { name: name@, version: version@ },
            ));
        }
    }

    /// Is a package with the name to be built.
    fn is_built(&self, name: &String) -> (r: bool)
        ensures
            r == builds(self.st().build, name@),
    {
        let mut i: usize = 0;
        while i < self.actions.build.len()
            invariant
                i <= self.actions.build.len(),
                forall|j: int|
                    0 <= j < i ==> !(#[trigger] self.st().build[j]).names().contains(name@),
            decreases self.actions.build.len() - i,
        {
            let names = self.actions.build[i].packages();
            if has_name(&names, name) {
                assert(self.st().build[i as int].names().contains(name@));
                return true;
            }
            i = i + 1;
        }
        false
    }

    /// Resolves a target that comes from a sync database.
    pub fn resolve_repo_target(
        &mut self,
        targ: &Targ,
        alpm_pkg: &'a AlpmPkg,
        make: &Vec<String>,
        is_target: bool,
    )
        requires
            old(self).wf(),
        ensures
            final(self).wf(),
            final(self).env() == old(self).env(),
            final(self).st() == repo_target(
                old(self).env(),
                old(self).st(),
                targ@,
                alpm_pkg,
                text::strs(make@),
                is_target,
            ),
    {
        if !is_target && self.alpm.local_satisfier(self.query(&targ.pkg).as_str()) {
            return;
        }
        if self.flags.contains(Flags::NEEDED) && !self.devel(&targ.pkg) {
            if let Some(version) = self.up_to_date(&alpm_pkg.name, &alpm_pkg.version) {
                self.push_unneeded(targ.text(), version);
                return;
            }
        }
        let is_make = has_name(make, &targ.pkg);
        self.push_step(alpm_pkg.name.clone(), targ.pkg.clone());
        let ghost s = self.st();
        proof {
            seqs::lemma_left_len(tree::sync_names(self.env().m.system), s.seen);
            assert(tree::repo_depth(self.env()) >= tree::repo_bound(self.env(), s.seen, *alpm_pkg));
        }
        self.resolve_repo_pkg(alpm_pkg, is_target, is_make);
        proof {
            assert(self.st() == tree::repo_pkg(
                self.env(),
                tree::repo_depth(self.env()),
                s,
                alpm_pkg,
                is_target,
                is_make,
            ));
        }
        self.pop_step();
        self.mark_install(&alpm_pkg.name, is_make, is_target);
    }

    /// Resolves a target that comes from a pkgbuild repo.
    pub fn resolve_pkgbuild_target(
        &mut self,
        pkgbuild: &Targ,
        make: &Vec<String>,
        is_target: bool,
        targs: &Vec<String>,
    )
        requires
            old(self).wf(),
        ensures
            final(self).wf(),
            final(self).env() == old(self).env(),
            final(self).st() == pkgbuild_target(
                old(self).env(),
                old(self).st(),
                pkgbuild@,
                text::strs(make@),
                is_target,
                text::strs(targs@),
            ),
    {
        let ghost env = self.env();
        let dep = self.alpm.depend(pkgbuild.pkg.as_str());
        if self.should_skip_aur_pkg(&dep, is_target) {
            return;
        }
        let (repo, base, pkg) = match self.find_pkgbuild_repo_dep(pkgbuild.repo.as_ref(), &dep) {
            Some((repo, base, pkg)) => (repo.clone(), base, pkg),
            None => {
                self.push_missing(dep.text.clone());
                return;
            },
        };
        if let Some(version) = self.not_needed(
            &pkgbuild.pkg,
            &pkg.pkgname,
            &base.version(),
            is_target,
        ) {
            self.push_unneeded(pkgbuild.text(), version);
            return;
        }
        let is_make = has_name(make, &pkgbuild.pkg);
        self.push_step(pkg.pkgname.clone(), pkgbuild.pkg.clone());
        let ghost s = self.st();
        let who = AurOrPkgbuild::Pkgbuild(base, pkg);
        proof {
            let r = aur_tree::lemma_pkgbuild_dep(env, env.repos, pkgbuild@.repo, dep@);
            aur_tree::lemma_known_pkgbuild(env, r, base, pkg);
            seqs::lemma_left_len(env.all_texts(), s.resolved);
        }
        self.resolve_aur_pkg_deps(targs, who, is_make);
        proof {
            assert(self.st() == aur_tree::pkg_deps(
                env,
                env.depth(),
                s,
                text::strs(targs@),
                who,
                is_make,
            ));
        }
        self.pop_step();
        if self.is_built(&pkg.pkgname) {
            self.mark_build(&pkg.pkgname, is_make, is_target);
            return;
        }
        self.push_pkgbuild_build(repo, base, Package { pkg, make: is_make, target: is_target });
    }

    /// Resolves a target that comes from the AUR.
    pub fn resolve_aur_target(
        &mut self,
        aur_pkg: &String,
        make: &Vec<String>,
        is_target: bool,
        targs: &Vec<String>,
    )
        requires
            old(self).wf(),
        ensures
            final(self).wf(),
            final(self).env() == old(self).env(),
            final(self).st() == aur_target(
                old(self).env(),
                old(self).st(),
                aur_pkg@,
                text::strs(make@),
                is_target,
                text::strs(targs@),
            ),
    {
        let ghost env = self.env();
        let ghost st = self.st();
        let dep = self.alpm.depend(aur_pkg.as_str());
        let _ = self.seen_target.insert(aur_pkg.clone());
        proof {
            assert(self.st() == (St { seen_target: st.seen_target.insert(aur_pkg@), ..st }));
        }
        if self.should_skip_aur_pkg(&dep, is_target) {
            return;
        }
        let pkg = match self.select_satisfier_aur_cache(&dep, is_target) {
            Some(pkg) => pkg,
            None => {
                self.push_missing(dep.text.clone());
                return;
            },
        };
        if let Some(version) = self.not_needed(aur_pkg, &pkg.name, &pkg.version, is_target) {
            self.push_unneeded(aur_pkg.clone(), version);
            return;
        }
        let is_make = has_name(make, aur_pkg);
        self.push_step(pkg.name.clone(), aur_pkg.clone());
        let ghost s = self.st();
        let who = AurOrPkgbuild::Aur(&*pkg);
        proof {
            aur_tree::lemma_select_aur(env, dep@, is_target);
            aur_tree::lemma_known_aur(env, pkg);
            seqs::lemma_left_len(env.all_texts(), s.resolved);
        }
        self.resolve_aur_pkg_deps(targs, who, is_make);
        proof {
            assert(self.st() == aur_tree::pkg_deps(
                env,
                env.depth(),
                s,
                text::strs(targs@),
                who,
                is_make,
            ));
        }
        self.pop_step();
        if self.is_built(&pkg.name) {
            self.mark_build(&pkg.name, is_make, is_target);
            return;
        }
        self.push_aur_build(Package { pkg: pkg.clone(), make: is_make, target: is_target });
    }

    /// Resolves all the targets.
    pub fn resolve_all_targets(&mut self, targets: &Targets<'a>, make: &Vec<String>, is_target: bool)
        requires
            old(self).wf(),
        ensures
            final(self).wf(),
            final(self).env() == old(self).env(),
            final(self).st() == all_targets(
                old(self).env(),
                old(self).st(),
                targets@,
                text::strs(make@),
                is_target,
            ),
    {
        let ghost env = self.env();
        let ghost st = self.st();
        let ghost t = targets@;
        let ghost mv = text::strs(make@);
        let mut i: usize = 0;
        proof {
            assert(t.repo.skip(0) =~= t.repo);
        }
        while i < targets.repo.len()
            invariant
                self.wf(),
                self.env() == env,
                i <= targets.repo.len(),
                t == targets@,
                mv == text::strs(make@),
                repo_targets(env, self.st(), t.repo.skip(i as int), mv, is_target) == repo_targets(
                    env,
                    st,
                    t.repo,
                    mv,
                    is_target,
                ),
            decreases targets.repo.len() - i,
        {
            proof {
                assert(t.repo.skip(i as int)[0] == t.repo[i as int]);
                assert(t.repo.skip(i as int).drop_first() =~= t.repo.skip(i + 1));
            }
            self.resolve_repo_target(&targets.repo[i].0, targets.repo[i].1, make, is_target);
            i = i + 1;
        }
        let ghost s1 = self.st();
        let mut i: usize = 0;
        proof {
            assert(t.pkgbuild.skip(0) =~= t.pkgbuild);
        }
        while i < targets.pkgbuild.len()
            invariant
                self.wf(),
                self.env() == env,
                i <= targets.pkgbuild.len(),
                t == targets@,
                mv == text::strs(make@),
                pkgbuild_targets(
                    env,
                    self.st(),
                    t.pkgbuild.skip(i as int),
                    mv,
                    is_target,
                    t.aur,
                ) == pkgbuild_targets(env, s1, t.pkgbuild, mv, is_target, t.aur),
            decreases targets.pkgbuild.len() - i,
        {
            proof {
                assert(t.pkgbuild.skip(i as int)[0] == t.pkgbuild[i as int]);
                assert(t.pkgbuild.skip(i as int).drop_first() =~= t.pkgbuild.skip(i + 1));
            }
            self.resolve_pkgbuild_target(&targets.pkgbuild[i], make, is_target, &targets.aur);
            i = i + 1;
        }
        let ghost s2 = self.st();
        let mut i: usize = 0;
        proof {
            assert(t.aur.skip(0) =~= t.aur);
        }
        while i < targets.aur.len()
            invariant
                self.wf(),
                self.env() == env,
                i <= targets.aur.len(),
                t == targets@,
                mv == text::strs(make@),
                aur_targets(env, self.st(), t.aur.skip(i as int), mv, is_target, t.aur)
                    == aur_targets(env, s2, t.aur, mv, is_target, t.aur),
            decreases targets.aur.len() - i,
        {
            proof {
                assert(t.aur.skip(i as int)[0] == t.aur[i as int]);
                assert(t.aur.skip(i as int).drop_first() =~= t.aur.skip(i + 1));
            }
            self.resolve_aur_target(&targets.aur[i], make, is_target, &targets.aur);
            i = i + 1;
        }
    }
}

} // verus!
