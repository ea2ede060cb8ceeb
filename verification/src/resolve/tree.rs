//! Following dependencies.
use vstd::prelude::*;
use crate::actions;
use crate::actions::{DepMissing, Missing};
use crate::alpm;
use crate::alpm::{Alpm, AlpmPkg, Db, System};
use crate::base::{AurBase, AurPackage, Base, Package, Pkgbuild, PkgbuildPackages};
use crate::cb::Group;
use crate::depend;
use crate::depend::DependV;
use crate::flags::Flags;
use crate::model::{Env, St};
use crate::pkg::Srcinfo;
use crate::resolve::Resolver;
use crate::seqs;

verus! {

/// The names of the packages of a database.
pub open spec fn db_names() -> spec_fn(Db) -> Seq<Seq<char>> {
    |db: Db| db.pkgs@.map_values(|p: AlpmPkg| p.name@)
}

/// The names of all the sync packages.
pub open spec fn sync_names(system: System) -> Seq<Seq<char>> {
    seqs::flat(system.syncdbs@, db_names())
}

/// A depth at which no repo dependency is cut off.
pub open spec fn repo_depth(env: Env<'_>) -> nat {
    sync_names(env.m.system).len() + 1
}

/// How deep the dependencies of a repo package can go, given the packages that have been dealt
/// with.
pub open spec fn repo_bound(env: Env<'_>, seen: Set<Seq<char>>, pkg: AlpmPkg) -> nat {
    seqs::left(sync_names(env.m.system), seen) + (if alpm::in_syncdbs(env.m.system, pkg) {
        0nat
    } else {
        1nat
    })
}

/// Installing a repo package: its dependencies come first. A package that has been dealt with is
/// left alone. `depth` is how many steps dependencies are followed.
pub open spec fn repo_pkg<'a>(
    env: Env<'a>,
    depth: nat,
    st: St<'a>,
    pkg: &'a AlpmPkg,
    target: bool,
    make: bool,
) -> St<'a>
    decreases depth, 2nat, 0nat,
{
    if st.seen.contains(pkg.name@) {
        st
    } else {
        let s1 = St { seen: st.seen.insert(pkg.name@), ..st };
        let s2 = if env.flags.has(Flags::NO_DEPS) {
            s1
        } else {
            repo_deps(env, depth, s1, depend::deps(pkg.depends@))
        };
        s2.add_install(Package { pkg, make, target })
    }
}

/// Installing what each dependency of a repo package needs.
pub open spec fn repo_deps<'a>(env: Env<'a>, depth: nat, st: St<'a>, deps: Seq<DependV>) -> St<'a>
    decreases depth, 1nat, deps.len(),
{
    if deps.len() == 0 {
        st
    } else {
        repo_deps(env, depth, repo_dep(env, depth, st, deps[0]), deps.drop_first())
    }
}

/// Installing what one dependency of a repo package needs.
pub open spec fn repo_dep<'a>(env: Env<'a>, depth: nat, st: St<'a>, dep: DependV) -> St<'a>
    decreases depth, 0nat, 0nat,
{
    if env.sat_install(st.install, dep) || env.sat_local(dep) || env.assumed(dep) {
        st
    } else {
        match env.repo_sat(dep.text) {
            Some(p) => if depth == 0 {
                st
            } else {
                repo_pkg(
                    env,
                    (depth - 1) as nat,
                    st.push(p.name@, dep.text),
                    &p,
                    false,
                    true,
                ).pop()
            },
            None => st.miss(dep.text),
        }
    }
}

/// A sync package is among the names.
proof fn lemma_sync_names(system: System, pkg: AlpmPkg)
    requires
        alpm::in_syncdbs(system, pkg),
    ensures
        sync_names(system).contains(pkg.name@),
{
    let (i, j) = choose|i: int, j: int|
        0 <= i < system.syncdbs@.len() && 0 <= j < system.syncdbs@[i].pkgs@.len()
            && #[trigger] system.syncdbs@[i].pkgs@[j] == pkg;
    let names = db_names()(system.syncdbs@[i]);
    assert(names[j] == pkg.name@);
    seqs::lemma_flat(system.syncdbs@, db_names(), i, pkg.name@);
}

/// Dealing with an unseen sync package leaves less to deal with.
pub proof fn lemma_repo_bound(env: Env<'_>, seen: Set<Seq<char>>, pkg: AlpmPkg)
    requires
        !seen.contains(pkg.name@),
    ensures
        seqs::left(sync_names(env.m.system), seen.insert(pkg.name@)) < repo_bound(env, seen, pkg),
{
    if alpm::in_syncdbs(env.m.system, pkg) {
        lemma_sync_names(env.m.system, pkg);
        seqs::lemma_left_insert(sync_names(env.m.system), seen, pkg.name@);
    } else {
        seqs::lemma_left_mono(sync_names(env.m.system), seen, seen.insert(pkg.name@));
    }
}

impl<
    'a,
    A: Alpm,
    P: Fn(&str, &[String]) -> usize,
    G: Fn(&[Group<'a>]) -> Vec<&'a AlpmPkg>,
    D: Fn(&str) -> bool,
> Resolver<'a, A, P, G, D> {
    /// Steps down the path.
    pub(crate) fn push_step(&mut self, pkg: String, dep: String)
        requires
            old(self).wf(),
        ensures
            final(self).wf(),
            final(self).env() == old(self).env(),
            final(self).st() == old(self).st().push(pkg@, dep@),
    {
        let ghost before = self.stack@;
        self.stack.push(DepMissing::new(pkg, dep));
        proof {
            assert(actions::steps(self.stack@) =~= actions::steps(before).push(
                actions::DepMissingV { pkg: pkg@, dep: dep@ },
            ));
        }
    }

    /// Steps back up the path.
    pub(crate) fn pop_step(&mut self)
        requires
            old(self).wf(),
            old(self).st().stack.len() > 0,
        ensures
            final(self).wf(),
            final(self).env() == old(self).env(),
            final(self).st() == old(self).st().pop(),
    {
        let ghost before = self.stack@;
        let _ = self.stack.pop();
        proof {
            assert(actions::steps(self.stack@) =~= actions::steps(before).drop_last());
        }
    }

    /// Notes that a dependency could not be satisfied.
    pub(crate) fn push_missing(&mut self, dep: String)
        requires
            old(self).wf(),
        ensures
            final(self).wf(),
            final(self).env() == old(self).env(),
            final(self).st() == old(self).st().miss(dep@),
    {
        let ghost before = self.actions.missing@;
        let stack = actions::copy_steps(&self.stack);
        self.actions.missing.push(Missing { dep, stack });
        proof {
            assert(actions::missings(self.actions.missing@) =~= actions::missings(before).push(
                actions::MissingV { dep: dep@, stack: actions::steps(self.stack@) },
            ));
        }
    }

    /// Adds a repo package and what it depends on to what is to be installed.
    pub fn resolve_repo_pkg(&mut self, pkg: &'a AlpmPkg, target: bool, make: bool)
        requires
            old(self).wf(),
        ensures
            final(self).wf(),
            final(self).env() == old(self).env(),
            final(self).st().stack == old(self).st().stack,
            final(self).st().resolved == old(self).st().resolved,
            final(self).st().seen_target == old(self).st().seen_target,
            old(self).st().seen.subset_of(final(self).st().seen),
            forall|depth: nat|
                depth >= repo_bound(old(self).env(), old(self).st().seen, *pkg) ==> final(self).st()
                    == #[trigger] repo_pkg(
                    old(self).env(),
                    depth,
                    old(self).st(),
                    pkg,
                    target,
                    make,
                ),
        decreases repo_bound(old(self).env(), old(self).st().seen, *pkg),
    {
        let ghost env = self.env();
        let ghost st = self.st();
        let ghost bound = repo_bound(env, st.seen, *pkg);
        if !self.seen.insert(pkg.name.clone()) {
            proof {
                assert(self.seen@ =~= st.seen);
            }
            return;
        }
        let ghost s1 = self.st();
        let ghost deps = depend::deps(pkg.depends@);
        proof {
            lemma_repo_bound(env, st.seen, *pkg);
        }
        if !self.flags.contains(Flags::NO_DEPS) {
            let mut i: usize = 0;
            proof {
                assert(deps.skip(0) =~= deps);
            }
            while i < pkg.depends.len()
                invariant
                    self.wf(),
                    self.env() == env,
                    i <= pkg.depends.len(),
                    deps == depend::deps(pkg.depends@),
                    seqs::left(sync_names(env.m.system), s1.seen) < bound,
                    bound == repo_bound(old(self).env(), old(self).st().seen, *pkg),
                    self.st().stack == s1.stack,
                    self.st().resolved == s1.resolved,
                    self.st().seen_target == s1.seen_target,
                    s1.seen.subset_of(self.st().seen),
                    forall|d: nat|
                        d >= bound ==> #[trigger] repo_deps(env, d, s1, deps) == repo_deps(
                            env,
                            d,
                            self.st(),
                            deps.skip(i as int),
                        ),
                decreases pkg.depends.len() - i,
            {
                let ghost cur = self.st();
                let dep = &pkg.depends[i];
                proof {
                    assert(deps.skip(i as int)[0] == dep@);
                    assert(deps.skip(i as int).drop_first() =~= deps.skip(i + 1));
                    seqs::lemma_left_mono(sync_names(env.m.system), s1.seen, cur.seen);
                    assert forall|d: nat| d >= bound implies #[trigger] repo_deps(env, d, s1, deps)
                        == repo_deps(env, d, repo_dep(env, d, cur, dep@), deps.skip(i + 1)) by {
                        assert(repo_deps(env, d, s1, deps) == repo_deps(
                            env,
                            d,
                            cur,
                            deps.skip(i as int),
                        ));
                    }
                }
                if self.satisfied_install(dep) || self.satisfied_local(dep)
                    || self.assume_installed(dep) {
                    proof {
                        assert(forall|d: nat|
                            d >= bound ==> self.st() == #[trigger] repo_dep(env, d, cur, dep@));
                    }
                } else if let Some(p) = self.find_repo_satisfier(&dep.text) {
                    self.push_step(p.name.clone(), dep.text.clone());
                    let ghost s2 = self.st();
                    self.resolve_repo_pkg(p, false, true);
                    let ghost s3 = self.st();
                    self.pop_step();
                    proof {
                        assert(self.st().stack =~= cur.stack);
                        assert forall|d: nat| d >= bound implies self.st() == #[trigger] repo_dep(
                            env,
                            d,
                            cur,
                            dep@,
                        ) by {
                            let e = (d - 1) as nat;
                            assert(e >= repo_bound(env, s2.seen, *p));
                            assert(s3 == repo_pkg(env, e, s2, p, false, true));
                        }
                    }
                } else {
                    self.push_missing(dep.text.clone());
                    proof {
                        assert(forall|d: nat|
                            d >= bound ==> self.st() == #[trigger] repo_dep(env, d, cur, dep@));
                    }
                }
                i = i + 1;
            }
            proof {
                assert forall|d: nat| d >= bound implies self.st() == #[trigger] repo_deps(
                    env,
                    d,
                    s1,
                    deps,
                ) by {
                    assert(repo_deps(env, d, s1, deps) == repo_deps(
                        env,
                        d,
                        self.st(),
                        deps.skip(i as int),
                    ));
                }
            }
        }
        let ghost s2 = self.st();
        self.actions.install.push(Package { pkg, make, target });
        proof {
            assert(self.st() == s2.add_install(Package { pkg, make, target }));
            assert(s1 == (St { seen: st.seen.insert(pkg.name@), ..st }));
            assert forall|d: nat| d >= bound implies self.st() == #[trigger] repo_pkg(
                env,
                d,
                st,
                pkg,
                target,
                make,
            ) by {
                if !env.flags.has(Flags::NO_DEPS) {
                    assert(s2 == repo_deps(env, d, s1, deps));
                }
            }
        }
    }

    /// Adds an AUR package to what is to be built.
    pub fn push_aur_build(&mut self, pkg: AurPackage)
        requires
            old(self).wf(),
        ensures
            final(self).wf(),
            final(self).env() == old(self).env(),
            final(self).st() == old(self).st().add_aur(pkg),
    {
        let ghost st = self.st();
        let ghost all = self.actions.build@;
        let ghost name = pkg.pkg.package_base@;
        let n = self.actions.build.len();
        if n > 0 {
            if let Some(last) = self.actions.build.pop() {
                match last {
                    Base::Aur(b) => {
                        proof {
                            assert(all[n - 1]@.wf());
                        }
                        if *b.package_base() == pkg.pkg.package_base {
                            let mut b = b;
                            b.pkgs.push(pkg);
                            self.actions.build.push(Base::Aur(b));
                            proof {
                                assert(self.st().build =~= st.add_aur(pkg).build);
                            }
                            return;
                        }
                        self.actions.build.push(Base::Aur(b));
                    },
                    Base::Pkgbuild(b) => {
                        self.actions.build.push(Base::Pkgbuild(b));
                    },
                }
            }
        }
        proof {
            assert(self.actions.build@ =~= all);
            assert(self.st() == st);
        }
        let mut build = true;
        let mut i: usize = 0;
        while i < self.actions.build.len() && build
            invariant
                self.wf(),
                self.st() == st,
                name == pkg.pkg.package_base@,
                i <= self.actions.build.len(),
                build ==> forall|j: int|
                    0 <= j < i ==> !((#[trigger] st.build[j]) is Aur && st.build[j].name() == name),
                !build ==> exists|j: int|
                    0 <= j < st.build.len() && (#[trigger] st.build[j]) is Aur
                        && st.build[j].name() == name,
            decreases self.actions.build.len() - i,
        {
            proof {
                assert(st.build[i as int] == self.actions.build@[i as int]@);
                assert(self.actions.build@[i as int]@.wf());
            }
            if let Base::Aur(b) = &self.actions.build[i] {
                if *b.package_base() == pkg.pkg.package_base {
                    build = false;
                }
            }
            i = i + 1;
        }
        let mut pkgs: Vec<AurPackage> = Vec::new();
        pkgs.push(pkg);
        proof {
            assert(pkgs@ =~= seq![pkg]);
        }
        self.actions.build.push(Base::Aur(AurBase { pkgs, build }));
        proof {
            assert(self.st().build =~= st.add_aur(pkg).build);
        }
    }

    /// Adds a package of a pkgbuild repo to what is to be built.
    pub fn push_pkgbuild_build(&mut self, repo: String, base: &'a Srcinfo, pkg: Pkgbuild<'a>)
        requires
            old(self).wf(),
        ensures
            final(self).wf(),
            final(self).env() == old(self).env(),
            final(self).st() == old(self).st().add_pkgbuild(repo@, base, pkg),
    {
        let ghost st = self.st();
        let ghost all = self.actions.build@;
        let ghost name = base.base.pkgbase@;
        let n = self.actions.build.len();
        if n > 0 {
            if let Some(last) = self.actions.build.pop() {
                match last {
                    Base::Pkgbuild(b) => {
                        if *b.package_base() == base.base.pkgbase {
                            let mut b = b;
                            b.pkgs.push(pkg);
                            self.actions.build.push(Base::Pkgbuild(b));
                            proof {
                                assert(self.st().build =~= st.add_pkgbuild(repo@, base, pkg).build);
                            }
                            return;
                        }
                        self.actions.build.push(Base::Pkgbuild(b));
                    },
                    Base::Aur(b) => {
                        proof {
                            assert(all[n - 1]@.wf());
                        }
                        self.actions.build.push(Base::Aur(b));
                    },
                }
            }
        }
        proof {
            assert(self.actions.build@ =~= all);
            assert(self.st() == st);
        }
        let mut build = true;
        let mut i: usize = 0;
        while i < self.actions.build.len() && build
            invariant
                self.wf(),
                self.st() == st,
                name == base.base.pkgbase@,
                i <= self.actions.build.len(),
                build ==> forall|j: int|
                    0 <= j < i ==> !((#[trigger] st.build[j]) is Pkgbuild && st.build[j].name()
                        == name),
                !build ==> exists|j: int|
                    0 <= j < st.build.len() && (#[trigger] st.build[j]) is Pkgbuild
                        && st.build[j].name() == name,
            decreases self.actions.build.len() - i,
        {
            proof {
                assert(st.build[i as int] == self.actions.build@[i as int]@);
            }
            if let Base::Pkgbuild(b) = &self.actions.build[i] {
                if *b.package_base() == base.base.pkgbase {
                    build = false;
                }
            }
            i = i + 1;
        }
        let mut pkgs: Vec<Pkgbuild<'a>> = Vec::new();
        pkgs.push(pkg);
        proof {
            assert(pkgs@ =~= seq![pkg]);
        }
        self.actions.build.push(
            Base::Pkgbuild(PkgbuildPackages { repo, srcinfo: base, pkgs, build }),
        );
        proof {
            assert(self.st().build =~= st.add_pkgbuild(repo@, base, pkg).build);
        }
    }
}

} // verus!
