//! Following the dependencies of packages that are built.
use std::sync::Arc;
use vstd::prelude::*;
use crate::alpm::{Alpm, AlpmModel, AlpmPkg};
use crate::base::Package;
use crate::cache;
use crate::cb::Group;
use crate::depend::DependV;
use crate::flags::Flags;
use crate::model::{Env, St};
use crate::pkg;
use crate::pkg::{AurOrPkgbuild, AurPkg, PkgbuildRepo, Srcinfo, SrcinfoPkg};
use crate::resolve::queries::has_name;
use crate::resolve::tree;
use crate::resolve::Resolver;
use crate::satisfies;
use crate::seqs;
use crate::text;

verus! {

/// The dependencies that the strings stand for, as strings.
pub open spec fn dep_texts(m: AlpmModel, v: Seq<Seq<char>>) -> Seq<Seq<char>> {
    v.map_values(|s: Seq<char>| (m.depend)(s).text)
}

impl<'a> Env<'a> {
    /// What is needed to build and to run the package.
    pub open spec fn needs(self, who: AurOrPkgbuild<'_>) -> Seq<Seq<char>> {
        who.needs(self.arch(), self.flags.has(Flags::CHECK_DEPENDS))
    }

    /// Which dependencies of the package are make only so far: all of them where the package is,
    /// else those that it does not need to run.
    pub open spec fn makes(self, who: AurOrPkgbuild<'_>, make: bool) -> spec_fn(Seq<char>) -> bool {
        |need: Seq<char>| make || !who.run_needs(self.arch()).contains(need)
    }

    /// What an AUR package depends on.
    pub open spec fn aur_texts(self) -> spec_fn(Arc<AurPkg>) -> Seq<Seq<char>> {
        |p: Arc<AurPkg>| dep_texts(self.m, self.needs(AurOrPkgbuild::Aur(&*p)))
    }

    /// What a package of the .SRCINFO depends on.
    pub open spec fn pkg_texts(self, s: &Srcinfo) -> spec_fn(SrcinfoPkg) -> Seq<Seq<char>> {
        |p: SrcinfoPkg| dep_texts(self.m, self.needs(AurOrPkgbuild::Pkgbuild(s, &p)))
    }

    /// What the packages of a .SRCINFO depend on.
    pub open spec fn srcinfo_texts(self) -> spec_fn(&'a Srcinfo) -> Seq<Seq<char>> {
        |s: &'a Srcinfo| seqs::flat(s.pkgs@, self.pkg_texts(s))
    }

    /// What the packages of a pkgbuild repo depend on.
    pub open spec fn repo_texts(self) -> spec_fn(PkgbuildRepo<'a>) -> Seq<Seq<char>> {
        |r: PkgbuildRepo<'a>| seqs::flat(r.pkgs@, self.srcinfo_texts())
    }

    /// All that packages which can be built depend on.
    pub open spec fn all_texts(self) -> Seq<Seq<char>> {
        seqs::flat(self.cache, self.aur_texts()) + seqs::flat(self.repos, self.repo_texts())
    }

    /// A depth at which no dependency is cut off.
    pub open spec fn depth(self) -> nat {
        self.all_texts().len()
    }

    /// What the package depends on is among all the dependencies.
    pub open spec fn known(self, who: AurOrPkgbuild<'_>) -> bool {
        forall|i: int|
            0 <= i < self.needs(who).len() ==> self.all_texts().contains(
                (self.m.depend)(#[trigger] self.needs(who)[i]).text,
            )
    }
}

/// Building what a package depends on. `depth` is how many steps dependencies are followed, and
/// `make` whether the package is make only.
pub open spec fn pkg_deps<'a>(
    env: Env<'a>,
    depth: nat,
    st: St<'a>,
    targs: Seq<Seq<char>>,
    who: AurOrPkgbuild<'_>,
    make: bool,
) -> St<'a>
    decreases depth, 2nat, 0nat,
{
    if env.flags.has(Flags::NO_DEPS) {
        st
    } else {
        aur_deps(env, depth, st, targs, env.needs(who), env.makes(who, make))
    }
}

/// Building what each of the dependencies needs. `make` tells which of them are make only.
pub open spec fn aur_deps<'a>(
    env: Env<'a>,
    depth: nat,
    st: St<'a>,
    targs: Seq<Seq<char>>,
    needs: Seq<Seq<char>>,
    make: spec_fn(Seq<char>) -> bool,
) -> St<'a>
    decreases depth, 1nat, needs.len(),
{
    if needs.len() == 0 {
        st
    } else {
        aur_deps(
            env,
            depth,
            aur_dep(env, depth, st, targs, needs[0], make(needs[0])),
            targs,
            needs.drop_first(),
            make,
        )
    }
}

/// Building what one dependency needs. A dependency that is met already, or has been dealt with, is
/// left alone. Otherwise it is met by what is installed, then by the sync databases, then by a
/// pkgbuild repo, then by the AUR; a target from the AUR goes before what is installed and before
/// the sync databases.
pub open spec fn aur_dep<'a>(
    env: Env<'a>,
    depth: nat,
    st: St<'a>,
    targs: Seq<Seq<char>>,
    need: Seq<char>,
    make: bool,
) -> St<'a>
    decreases depth, 0nat, 0nat,
{
    let dep = (env.m.depend)(need);
    if env.assumed(dep) || env.sat_build(st.build, dep) || st.resolved.contains(dep.text)
        || env.sat_install(st.install, dep) {
        st
    } else {
        let s1 = st.resolve(dep.text);
        let is_targ = env.is_aur_targ(st.seen_target, targs, dep);
        if !is_targ && !env.flags.has(Flags::RESOLVE_SATISFIED_PKGBUILDS) && env.sat_local(dep) {
            s1
        } else if !is_targ && env.repo_sat(dep.text) is Some {
            let p = env.repo_sat(dep.text)->0;
            if env.sat_local(dep) {
                s1
            } else {
                tree::repo_pkg(
                    env,
                    tree::repo_depth(env),
                    s1.push(p.name@, dep.text),
                    &p,
                    false,
                    true,
                ).pop()
            }
        } else if env.skip_aur(dep, is_targ) {
            s1
        } else {
            match env.pkgbuild_dep(None, dep) {
                Some((repo, srcinfo, pkg)) => if depth == 0 {
                    s1
                } else {
                    pkg_deps(
                        env,
                        (depth - 1) as nat,
                        s1.push(pkg.pkgname@, dep.text),
                        targs,
                        AurOrPkgbuild::Pkgbuild(srcinfo, pkg),
                        true,
                    ).pop().add_pkgbuild(repo, srcinfo, Package { pkg, make, target: false })
                },
                None => match env.select_aur(dep, false) {
                    Some(p) => if depth == 0 {
                        s1
                    } else {
                        pkg_deps(
                            env,
                            (depth - 1) as nat,
                            s1.push(p.name@, dep.text),
                            targs,
                            AurOrPkgbuild::Aur(&*p),
                            true,
                        ).pop().add_aur(Package { pkg: p, make, target: false })
                    },
                    None => s1.miss(dep.text),
                },
            }
        }
    }
}

/// What a cached package depends on is among all the dependencies.
pub proof fn lemma_known_aur<'a>(env: Env<'a>, p: Arc<AurPkg>)
    requires
        env.cache.contains(p),
    ensures
        env.known(AurOrPkgbuild::Aur(&*p)),
{
    let who = AurOrPkgbuild::Aur(&*p);
    let k = choose|k: int| 0 <= k < env.cache.len() && env.cache[k] == p;
    assert forall|i: int| 0 <= i < env.needs(who).len() implies env.all_texts().contains(
        (env.m.depend)(#[trigger] env.needs(who)[i]).text,
    ) by {
        let x = (env.m.depend)(env.needs(who)[i]).text;
        assert(dep_texts(env.m, env.needs(who))[i] == x);
        seqs::lemma_flat(env.cache, env.aur_texts(), k, x);
        let left = seqs::flat(env.cache, env.aur_texts());
        let j = choose|j: int| 0 <= j < left.len() && left[j] == x;
        assert(env.all_texts()[j] == x);
    }
}

/// The package is in the repo.
pub open spec fn in_repo<'a>(r: PkgbuildRepo<'a>, s: &'a Srcinfo, p: &'a SrcinfoPkg) -> bool {
    r.pkgs@.contains(s) && s.pkgs@.contains(*p)
}

/// What a package of a pkgbuild repo depends on is among all the dependencies.
pub proof fn lemma_known_pkgbuild<'a>(
    env: Env<'a>,
    r: int,
    s: &'a Srcinfo,
    p: &'a SrcinfoPkg,
)
    requires
        0 <= r < env.repos.len(),
        in_repo(env.repos[r], s, p),
    ensures
        env.known(AurOrPkgbuild::Pkgbuild(s, p)),
{
    let who = AurOrPkgbuild::Pkgbuild(s, p);
    let pkgs = env.repos[r].pkgs@;
    let k = choose|k: int| 0 <= k < pkgs.len() && pkgs[k] == s;
    let l = choose|l: int| 0 <= l < s.pkgs@.len() && s.pkgs@[l] == *p;
    assert forall|i: int| 0 <= i < env.needs(who).len() implies env.all_texts().contains(
        (env.m.depend)(#[trigger] env.needs(who)[i]).text,
    ) by {
        let x = (env.m.depend)(env.needs(who)[i]).text;
        assert(dep_texts(env.m, env.needs(who))[i] == x);
        assert(env.pkg_texts(s)(s.pkgs@[l]).contains(x));
        seqs::lemma_flat(s.pkgs@, env.pkg_texts(s), l, x);
        assert(env.srcinfo_texts()(pkgs[k]).contains(x));
        seqs::lemma_flat(pkgs, env.srcinfo_texts(), k, x);
        assert(env.repo_texts()(env.repos[r]).contains(x));
        seqs::lemma_flat(env.repos, env.repo_texts(), r, x);
        let left = seqs::flat(env.cache, env.aur_texts());
        let right = seqs::flat(env.repos, env.repo_texts());
        let j = choose|j: int| 0 <= j < right.len() && right[j] == x;
        assert(env.all_texts()[left.len() + j] == x);
    }
}

/// The package that is picked is in the cache.
pub proof fn lemma_select_aur<'a>(env: Env<'a>, dep: DependV, target: bool)
    ensures
        env.find_aur(dep) matches Some(p) ==> env.cache.contains(p),
        env.select_aur(dep, target) matches Some(p) ==> env.cache.contains(p),
{
    seqs::lemma_first(env.cache, env.aur_sat(dep));
    seqs::lemma_first(env.cache, env.aur_sat_installed(dep));
    assert forall|name: Seq<char>|
        #[trigger] cache::lookup(env.cache, name) is Some implies env.cache.contains(
        cache::lookup(env.cache, name)->0,
    ) by {
        seqs::lemma_first(env.cache, cache::named(name));
    }
}

/// The package that is found is in one of the repos.
pub proof fn lemma_pkgbuild_dep<'a>(
    env: Env<'a>,
    repos: Seq<PkgbuildRepo<'a>>,
    repo: Option<Seq<char>>,
    dep: DependV,
) -> (r: int)
    ensures
        env.pkgbuild_dep_in(repos, repo, dep) matches Some(f) ==> 0 <= r < repos.len() && in_repo(
            repos[r],
            f.1,
            f.2,
        ),
    decreases repos.len(),
{
    if repos.len() == 0 {
        0
    } else if (repo is None || repo == Some(repos[0].name@)) && env.srcinfo_dep(
        repos[0].pkgs@,
        dep,
    ) is Some {
        let pkgs = repos[0].pkgs@;
        seqs::lemma_first(pkgs, env.srcinfo_has(dep));
        let s = seqs::first(pkgs, env.srcinfo_has(dep))->0;
        assert(s == pkgs[seqs::first_at(pkgs, env.srcinfo_has(dep))]);
        let k = satisfies::srcinfo_index(env.m, *s, s.pkgs@, dep, env.nover());
        satisfies::lemma_srcinfo_index(env.m, *s, s.pkgs@, dep, env.nover());
        pkg::lemma_pkg_index(s.pkgs@, k);
        0
    } else {
        1 + lemma_pkgbuild_dep(env, repos.drop_first(), repo, dep)
    }
}

impl<
    'a,
    A: Alpm,
    P: Fn(&str, &[String]) -> usize,
    G: Fn(&[Group<'a>]) -> Vec<&'a AlpmPkg>,
    D: Fn(&str) -> bool,
> Resolver<'a, A, P, G, D> {
    /// The first architecture, empty where there is none.
    pub(crate) fn arch(&self) -> (r: String)
        requires
            self.able(),
        ensures
            r@ == self.env().arch(),
    {
        let archs = &self.alpm.system().architectures;
        if archs.len() > 0 {
            archs[0].clone()
        } else {
            String::new()
        }
    }

    /// Adds what a package depends on to what is to be built and installed.
    pub(crate) fn resolve_aur_pkg_deps(
        &mut self,
        targs: &Vec<String>,
        pkg: AurOrPkgbuild<'_>,
        make: bool,
    )
        requires
            old(self).wf(),
            old(self).env().known(pkg),
        ensures
            final(self).wf(),
            final(self).env() == old(self).env(),
            final(self).st().stack == old(self).st().stack,
            final(self).st().seen_target == old(self).st().seen_target,
            old(self).st().resolved.subset_of(final(self).st().resolved),
            forall|depth: nat|
                depth >= seqs::left(old(self).env().all_texts(), old(self).st().resolved)
                    ==> final(self).st() == #[trigger] pkg_deps(
                    old(self).env(),
                    depth,
                    old(self).st(),
                    text::strs(targs@),
                    pkg,
                    make,
                ),
        decreases seqs::left(old(self).env().all_texts(), old(self).st().resolved), 1nat,
    {
        let ghost env = self.env();
        let ghost st = self.st();
        let ghost bound = seqs::left(env.all_texts(), st.resolved);
        let ghost tv = text::strs(targs@);
        if self.flags.contains(Flags::NO_DEPS) {
            return;
        }
        let deps = pkg.depends(&self.arch(), self.flags.contains(Flags::CHECK_DEPENDS));
        let run = pkg.run_depends(&self.arch());
        let ghost needs = env.needs(pkg);
        let ghost makes = env.makes(pkg, make);
        let mut i: usize = 0;
        proof {
            assert(needs.skip(0) =~= needs);
        }
        while i < deps.len()
            invariant
                self.wf(),
                self.env() == env,
                env == old(self).env(),
                st == old(self).st(),
                i <= deps.len(),
                tv == text::strs(targs@),
                needs == text::strs(deps@),
                needs == env.needs(pkg),
                makes == env.makes(pkg, make),
                text::strs(run@) == pkg.run_needs(env.arch()),
                env.known(pkg),
                bound == seqs::left(env.all_texts(), st.resolved),
                self.st().stack == st.stack,
                self.st().seen_target == st.seen_target,
                st.resolved.subset_of(self.st().resolved),
                forall|d: nat|
                    d >= bound ==> #[trigger] aur_deps(env, d, st, tv, needs, makes) == aur_deps(
                        env,
                        d,
                        self.st(),
                        tv,
                        needs.skip(i as int),
                        makes,
                    ),
            decreases deps.len() - i,
        {
            let ghost cur = self.st();
            proof {
                assert(needs[i as int] == deps@[i as int]@);
                assert(needs.skip(i as int)[0] == needs[i as int]);
                assert(needs.skip(i as int).drop_first() =~= needs.skip(i + 1));
                assert(env.all_texts().contains((env.m.depend)(env.needs(pkg)[i as int]).text));
                seqs::lemma_left_mono(env.all_texts(), st.resolved, cur.resolved);
            }
            let is_make = make || !has_name(&run, &deps[i]);
            assert(is_make == makes(needs[i as int]));
            self.resolve_aur_dep(targs, &deps[i], is_make);
            proof {
                assert forall|d: nat| d >= bound implies #[trigger] aur_deps(
                    env,
                    d,
                    st,
                    tv,
                    needs,
                    makes,
                ) == aur_deps(env, d, self.st(), tv, needs.skip(i + 1), makes) by {
                    assert(self.st() == aur_dep(env, d, cur, tv, needs[i as int], is_make));
                    assert(aur_deps(env, d, st, tv, needs, makes) == aur_deps(
                        env,
                        d,
                        cur,
                        tv,
                        needs.skip(i as int),
                        makes,
                    ));
                }
            }
            i = i + 1;
        }
        proof {
            assert forall|d: nat| d >= bound implies self.st() == #[trigger] pkg_deps(
                env,
                d,
                st,
                tv,
                pkg,
                make,
            ) by {
                assert(aur_deps(env, d, st, tv, needs, makes) == aur_deps(
                    env,
                    d,
                    self.st(),
                    tv,
                    needs.skip(i as int),
                    makes,
                ));
            }
        }
    }

    /// Adds what one dependency needs to what is to be built and installed.
    fn resolve_aur_dep(&mut self, targs: &Vec<String>, dep_str: &String, make: bool)
        requires
            old(self).wf(),
            old(self).env().all_texts().contains((old(self).env().m.depend)(dep_str@).text),
        ensures
            final(self).wf(),
            final(self).env() == old(self).env(),
            final(self).st().stack == old(self).st().stack,
            final(self).st().seen_target == old(self).st().seen_target,
            old(self).st().resolved.subset_of(final(self).st().resolved),
            forall|depth: nat|
                depth >= seqs::left(old(self).env().all_texts(), old(self).st().resolved)
                    ==> final(self).st() == #[trigger] aur_dep(
                    old(self).env(),
                    depth,
                    old(self).st(),
                    text::strs(targs@),
                    dep_str@,
                    make,
                ),
        decreases seqs::left(old(self).env().all_texts(), old(self).st().resolved), 0nat,
    {
        let ghost env = self.env();
        let ghost st = self.st();
        let ghost bound = seqs::left(env.all_texts(), st.resolved);
        let ghost tv = text::strs(targs@);
        let dep = self.alpm.depend(dep_str.as_str());
        if self.assume_installed(&dep) || self.satisfied_build(&dep) || self.resolved.contains(
            dep.text.as_str(),
        ) || self.satisfied_install(&dep) {
            return;
        }
        let is_aur_targ = self.dep_is_aur_targ(targs, &dep);
        let _ = self.resolved.insert(dep.text.clone());
        let ghost s1 = self.st();
        proof {
            assert(s1 == st.resolve(dep@.text));
            seqs::lemma_left_insert(env.all_texts(), st.resolved, dep@.text);
        }
        if !is_aur_targ {
            if !self.flags.contains(Flags::RESOLVE_SATISFIED_PKGBUILDS) && self.satisfied_local(
                &dep,
            ) {
                return;
            }
            if let Some(p) = self.find_repo_satisfier(&dep.text) {
                if !self.satisfied_local(&dep) {
                    self.push_step(p.name.clone(), dep.text.clone());
                    let ghost s2 = self.st();
                    self.resolve_repo_pkg(p, false, true);
                    proof {
                        seqs::lemma_left_len(tree::sync_names(env.m.system), s2.seen);
                        assert(tree::repo_depth(env) >= tree::repo_bound(env, s2.seen, *p));
                        assert(self.st() == tree::repo_pkg(
                            env,
                            tree::repo_depth(env),
                            s2,
                            p,
                            false,
                            true,
                        ));
                    }
                    self.pop_step();
                    assert(self.st().stack =~= st.stack);
                }
                return;
            }
        }
        if self.should_skip_aur_pkg(&dep, is_aur_targ) {
            return;
        }
        if let Some((repo, base, pkg)) = self.find_pkgbuild_repo_dep(None, &dep) {
            let repo = repo.clone();
            let who = AurOrPkgbuild::Pkgbuild(base, pkg);
            self.push_step(pkg.pkgname.clone(), dep.text.clone());
            let ghost s2 = self.st();
            proof {
                let r = lemma_pkgbuild_dep(env, env.repos, None, dep@);
                lemma_known_pkgbuild(env, r, base, pkg);
            }
            self.resolve_aur_pkg_deps(targs, who, true);
            let ghost s3 = self.st();
            self.pop_step();
            proof {
                assert(self.st().stack =~= st.stack);
            }
            self.push_pkgbuild_build(repo, base, Package { pkg, make, target: false });
            proof {
                assert forall|d: nat| d >= bound implies self.st() == #[trigger] aur_dep(
                    env,
                    d,
                    st,
                    tv,
                    dep_str@,
                    make,
                ) by {
                    let e = (d - 1) as nat;
                    assert(s3 == pkg_deps(env, e, s2, tv, who, true));
                }
            }
            return;
        }
        let sat_pkg = match self.select_satisfier_aur_cache(&dep, false) {
            Some(p) => p,
            None => {
                self.push_missing(dep.text.clone());
                return;
            },
        };
        self.push_step(sat_pkg.name.clone(), dep.text.clone());
        let ghost s2 = self.st();
        proof {
            lemma_select_aur(env, dep@, false);
            lemma_known_aur(env, sat_pkg);
        }
        let who = AurOrPkgbuild::Aur(&*sat_pkg);
        self.resolve_aur_pkg_deps(targs, who, true);
        let ghost s3 = self.st();
        self.pop_step();
        proof {
            assert(self.st().stack =~= st.stack);
        }
        self.push_aur_build(Package { pkg: sat_pkg.clone(), make, target: false });
        proof {
            assert forall|d: nat| d >= bound implies self.st() == #[trigger] aur_dep(
                env,
                d,
                st,
                tv,
                dep_str@,
                make,
            ) by {
                let e = (d - 1) as nat;
                assert(s3 == pkg_deps(env, e, s2, tv, who, true));
            }
        }
    }
}

} // verus!
