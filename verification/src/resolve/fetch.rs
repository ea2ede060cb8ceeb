//! Deciding which AUR packages are to be looked up.
//!
//! The resolver never talks to the AUR itself: it tells what to ask for next, and goes on once it
//! has been handed the answer.
use std::sync::Arc;
use vstd::prelude::*;
use crate::alpm;
use crate::alpm::{Alpm, AlpmPkg};
use crate::cache;
use crate::cb::Group;
use crate::depend;
use crate::depend::Depend;
use crate::flags::Flags;
use crate::model::{Env, St};
use crate::pkg;
use crate::pkg::{AurOrPkgbuild, AurPkg, Srcinfo, SrcinfoPkg};
use crate::resolve::aur_tree;
use crate::resolve::split::Targets;
use crate::resolve::Resolver;
use crate::satisfies;
use crate::satisfies::Satisfies;
use crate::seqs;
use crate::target;
use crate::target::{Targ, TargV};
use crate::text;

verus! {

/// What to ask the AUR next.
#[derive(Debug)]
pub enum Next {
    /// The info of the packages with the names `queries`.
    Info {
        /// What is being looked up.
        pkgs: Vec<String>,
        /// The names to ask for.
        queries: Vec<String>,
    },
    /// The names of the packages that provide one of `queries`.
    Search {
        /// What is being looked up.
        pkgs: Vec<String>,
        /// What has been found so far.
        found: Vec<Arc<AurPkg>>,
        /// The names to search for.
        queries: Vec<String>,
    },
    /// The info of the packages with the names `queries`, among them providers.
    ProvidesInfo {
        /// What is being looked up.
        pkgs: Vec<String>,
        /// What has been found so far.
        found: Vec<Arc<AurPkg>>,
        /// The names to ask for.
        queries: Vec<String>,
    },
    /// Nothing: all has been looked up.
    Done,
    /// Nothing: packages of pkgbuild repos depend on one another more steps deep than is allowed,
    /// most likely in a circle.
    TooDeep,
}

/// What to ask the AUR next, over characters.
#[verifier::ext_equal]
pub enum NextV {
    Info { pkgs: Seq<Seq<char>>, queries: Seq<Seq<char>> },
    Search { pkgs: Seq<Seq<char>>, found: Seq<Arc<AurPkg>>, queries: Seq<Seq<char>> },
    ProvidesInfo { pkgs: Seq<Seq<char>>, found: Seq<Arc<AurPkg>>, queries: Seq<Seq<char>> },
    Done,
    TooDeep,
}

impl View for Next {
    type V = NextV;

    open spec fn view(&self) -> NextV {
        match *self {
            Next::Info { pkgs, queries } => NextV::Info {
                pkgs: text::strs(pkgs@),
                queries: text::strs(queries@),
            },
            Next::Search { pkgs, found, queries } => NextV::Search {
                pkgs: text::strs(pkgs@),
                found: found@,
                queries: text::strs(queries@),
            },
            Next::ProvidesInfo { pkgs, found, queries } => NextV::ProvidesInfo {
                pkgs: text::strs(pkgs@),
                found: found@,
                queries: text::strs(queries@),
            },
            Next::Done => NextV::Done,
            Next::TooDeep => NextV::TooDeep,
        }
    }
}

/// The dependencies that have been dealt with, and what is to be looked up.
pub type Lookup = (Set<Seq<char>>, Seq<Seq<char>>);

impl<'a> Env<'a> {
    /// The dependency is to be looked up: it has not been dealt with, and neither the sync
    /// databases nor, in general, what is installed meets it.
    pub open spec fn wants(self, resolved: Set<Seq<char>>, need: Seq<char>) -> bool {
        let dep = (self.m.depend)(need);
        &&& !resolved.contains(dep.text)
        &&& self.repo_sat_silent(need) is None
        &&& if self.flags.has(Flags::RESOLVE_SATISFIED_PKGBUILDS) {
            !self.assumed(dep)
        } else {
            !self.sat_local(dep)
        }
    }

    /// A package of a pkgbuild repo meets the dependency.
    pub open spec fn in_pkgbuilds(self) -> spec_fn(Seq<char>) -> bool {
        |need: Seq<char>| self.pkgbuild_dep(None, (self.m.depend)(need)) is Some
    }

    /// The dependency is to be looked up in the AUR.
    pub open spec fn wants_aur(self, resolved: Set<Seq<char>>) -> spec_fn(Seq<char>) -> bool {
        |need: Seq<char>| self.wants(resolved, need) && !self.in_pkgbuilds()(need)
    }

    /// The dependency is to be looked up, and a package of a pkgbuild repo meets it.
    pub open spec fn wants_pkgbuild(self, resolved: Set<Seq<char>>) -> spec_fn(Seq<char>) -> bool {
        |need: Seq<char>| self.wants(resolved, need) && self.in_pkgbuilds()(need)
    }

    /// What a package of a pkgbuild repo needs from the AUR, by itself and by the packages of
    /// pkgbuild repos that it needs. None where those go more than `depth` steps deep.
    pub open spec fn pkgbuild_needs(
        self,
        depth: nat,
        resolved: Set<Seq<char>>,
        targ: TargV,
    ) -> Option<Lookup>
        decreases depth, 1nat, 0nat,
    {
        if self.flags.has(Flags::NO_DEPS) {
            Some((resolved, Seq::empty()))
        } else {
            match self.pkgbuild_dep(targ.repo, (self.m.depend)(targ.pkg)) {
                None => Some((resolved, Seq::empty())),
                Some((_, srcinfo, p)) => {
                    let needs = self.needs(AurOrPkgbuild::Pkgbuild(srcinfo, p));
                    let own = needs.filter(self.wants_aur(resolved));
                    let nested = aur_tree::dep_texts(
                        self.m,
                        needs.filter(self.wants_pkgbuild(resolved)),
                    );
                    match self.nested_needs(depth, resolved, nested) {
                        None => None,
                        Some((resolved, more)) => Some(
                            (
                                resolved.union(aur_tree::dep_texts(self.m, own).to_set()),
                                own + more,
                            ),
                        ),
                    }
                },
            }
        }
    }

    /// What each of the packages of pkgbuild repos needs from the AUR.
    pub open spec fn nested_needs(
        self,
        depth: nat,
        resolved: Set<Seq<char>>,
        deps: Seq<Seq<char>>,
    ) -> Option<Lookup>
        decreases depth, 0nat, deps.len(),
    {
        if deps.len() == 0 {
            Some((resolved, Seq::empty()))
        } else if depth == 0 {
            None
        } else {
            match self.pkgbuild_needs(
                (depth - 1) as nat,
                resolved,
                TargV { repo: None, pkg: deps[0] },
            ) {
                None => None,
                Some((resolved, head)) => match self.nested_needs(
                    depth,
                    resolved,
                    deps.drop_first(),
                ) {
                    None => None,
                    Some((resolved, tail)) => Some((resolved, head + tail)),
                },
            }
        }
    }

    /// What the targets from pkgbuild repos need from the AUR.
    pub open spec fn targets_needs(
        self,
        depth: nat,
        resolved: Set<Seq<char>>,
        targs: Seq<TargV>,
    ) -> Option<Lookup>
        decreases targs.len(),
    {
        if targs.len() == 0 {
            Some((resolved, Seq::empty()))
        } else {
            match self.pkgbuild_needs(depth, resolved, targs[0]) {
                None => None,
                Some((resolved, head)) => match self.targets_needs(
                    depth,
                    resolved,
                    targs.drop_first(),
                ) {
                    None => None,
                    Some((resolved, tail)) => Some((resolved, head + tail)),
                },
            }
        }
    }

    /// No package with the name is installed.
    pub open spec fn not_installed(self) -> spec_fn(Seq<char>) -> bool {
        |name: Seq<char>| self.local_pkg(name) is None
    }

    /// Looking for providers: a search for each name that is not installed.
    pub open spec fn search(self, pkgs: Seq<Seq<char>>, found: Seq<Arc<AurPkg>>) -> NextV {
        NextV::Search { pkgs, found, queries: no_vers(pkgs).filter(self.not_installed()) }
    }

    /// What is to be asked for given what is to be looked up.
    pub open spec fn lookup(self, pkgs: Seq<Seq<char>>, target: bool) -> NextV {
        let queries = text::dedup(text::sorted(no_vers(pkgs)));
        if pkgs.len() == 0 {
            NextV::Done
        } else if self.flags.has(Flags::PROVIDES) || self.flags.has(
            if target {
                Flags::TARGET_PROVIDES
            } else {
                Flags::NON_TARGET_PROVIDES
            },
        ) {
            self.search(queries, Seq::empty())
        } else {
            NextV::Info { pkgs, queries }
        }
    }

    /// What is to be asked for given what is to be looked up, part of it in pkgbuild repos.
    pub open spec fn round(
        self,
        depth: nat,
        resolved: Set<Seq<char>>,
        pkgs: Seq<Seq<char>>,
        pkgbuilds: Seq<TargV>,
        target: bool,
    ) -> (Set<Seq<char>>, NextV) {
        match self.targets_needs(depth, resolved, pkgbuilds) {
            None => (resolved, NextV::TooDeep),
            Some((resolved, needs)) => (resolved, self.lookup(needs + pkgs, target)),
        }
    }

    /// What an AUR package depends on, in the order in which it is looked up.
    pub open spec fn aur_needs(self) -> spec_fn(Arc<AurPkg>) -> Seq<Seq<char>> {
        |p: Arc<AurPkg>|
            text::strs(p.depends@) + text::strs(p.make_depends@) + (if self.flags.has(
                Flags::CHECK_DEPENDS,
            ) {
                text::strs(p.check_depends@)
            } else {
                Seq::empty()
            })
    }

    /// Which of the dependencies are to be looked up, each of them once.
    pub open spec fn fresh(self, resolved: Set<Seq<char>>, needs: Seq<Seq<char>>) -> Lookup
        decreases needs.len(),
    {
        if needs.len() == 0 {
            (resolved, Seq::empty())
        } else if self.wants(resolved, needs[0]) {
            let (r, tail) = self.fresh(
                resolved.insert((self.m.depend)(needs[0]).text),
                needs.drop_first(),
            );
            (r, seq![needs[0]] + tail)
        } else {
            self.fresh(resolved, needs.drop_first())
        }
    }

    /// What is to be asked for once packages have been found: what they depend on.
    pub open spec fn follow(
        self,
        depth: nat,
        resolved: Set<Seq<char>>,
        found: Seq<Arc<AurPkg>>,
    ) -> (Set<Seq<char>>, NextV) {
        if self.flags.has(Flags::NO_DEPS) {
            (resolved, NextV::Done)
        } else {
            let (r, new) = self.fresh(resolved, seqs::flat(found, self.aur_needs()));
            if new.len() == 0 {
                (r, NextV::Done)
            } else {
                self.round(
                    depth,
                    r,
                    new.filter(self.not_in_pkgbuilds()),
                    any_repo(new.filter(self.in_pkgbuilds())),
                    false,
                )
            }
        }
    }

    /// No package of a pkgbuild repo meets the dependency.
    pub open spec fn not_in_pkgbuilds(self) -> spec_fn(Seq<char>) -> bool {
        |need: Seq<char>| !self.in_pkgbuilds()(need)
    }

    /// None of the packages meets the dependency.
    pub open spec fn unmet(self, found: Seq<Arc<AurPkg>>) -> spec_fn(Seq<char>) -> bool {
        |need: Seq<char>| !seqs::any(found, self.aur_sat((self.m.depend)(need)))
    }

    /// The package meets one of the dependencies.
    pub open spec fn provides(self, pkgs: Seq<Seq<char>>) -> spec_fn(Arc<AurPkg>) -> bool {
        |p: Arc<AurPkg>|
            exists|i: int|
                0 <= i < pkgs.len() && self.aur_sat((self.m.depend)(#[trigger] pkgs[i]))(p)
    }

    /// What is to be asked for once the info of packages has come in. What they do not meet is
    /// searched for where that is enabled.
    pub open spec fn after_info(
        self,
        depth: nat,
        resolved: Set<Seq<char>>,
        pkgs: Seq<Seq<char>>,
        info: Seq<Arc<AurPkg>>,
    ) -> (Set<Seq<char>>, NextV) {
        let missing = aur_tree::dep_texts(self.m, pkgs.filter(self.unmet(info)));
        if (self.flags.has(Flags::PROVIDES) || self.flags.has(Flags::MISSING_PROVIDES))
            && missing.len() > 0 {
            (resolved, self.search(missing, info))
        } else {
            self.follow(depth, resolved, info)
        }
    }
}

/// The names without version constraints.
pub open spec fn no_vers(v: Seq<Seq<char>>) -> Seq<Seq<char>> {
    v.map_values(|s: Seq<char>| text::no_ver(s))
}

/// The targets of those names, from any repo.
pub open spec fn any_repo(v: Seq<Seq<char>>) -> Seq<TargV> {
    v.map_values(|s: Seq<char>| TargV { repo: None, pkg: s })
}

/// The names without version constraints.
fn without_vers(v: &Vec<String>) -> (r: Vec<String>)
    ensures
        text::strs(r@) == no_vers(text::strs(v@)),
{
    let mut r: Vec<String> = Vec::new();
    let mut i: usize = 0;
    while i < v.len()
        invariant
            i <= v.len(),
            r.len() == i,
            forall|j: int| 0 <= j < i ==> #[trigger] r@[j]@ == text::no_ver(v@[j]@),
        decreases v.len() - i,
    {
        r.push(text::without_ver(v[i].as_str()));
        i = i + 1;
    }
    proof {
        assert(text::strs(r@) =~= no_vers(text::strs(v@)));
    }
    r
}

/// One more name.
proof fn lemma_strs_push(v: Seq<String>, x: String)
    ensures
        text::strs(v.push(x)) == text::strs(v).push(x@),
{
    assert(text::strs(v.push(x)) =~= text::strs(v).push(x@));
}

impl<
    'a,
    A: Alpm,
    P: Fn(&str, &[String]) -> usize,
    G: Fn(&[Group<'a>]) -> Vec<&'a AlpmPkg>,
    D: Fn(&str) -> bool,
> Resolver<'a, A, P, G, D> {
    /// Is the dependency to be looked up.
    fn is_wanted(&self, need: &String, dep: &Depend) -> (r: bool)
        requires
            self.able(),
            dep@ == (self.env().m.depend)(need@),
        ensures
            r == self.env().wants(self.st().resolved, need@),
    {
        if self.resolved.contains(dep.text.as_str()) {
            return false;
        }
        if self.find_repo_satisfier_silent(need).is_some() {
            return false;
        }
        if self.flags.contains(Flags::RESOLVE_SATISFIED_PKGBUILDS) {
            !self.assume_installed(dep)
        } else {
            !self.satisfied_local(dep)
        }
    }

    /// Notes that the dependencies have been dealt with.
    fn mark_resolved(&mut self, needs: &Vec<String>)
        requires
            old(self).able(),
        ensures
            final(self).able(),
            final(self).steady() == old(self).steady(),
            final(self).env() == old(self).env(),
            final(self).st() == (St {
                resolved: old(self).st().resolved.union(
                    aur_tree::dep_texts(old(self).env().m, text::strs(needs@)).to_set(),
                ),
                ..old(self).st()
            }),
    {
        let ghost env = self.env();
        let ghost st = self.st();
        let ghost texts = aur_tree::dep_texts(env.m, text::strs(needs@));
        let mut i: usize = 0;
        while i < needs.len()
            invariant
                self.able(),
                self.steady() == old(self).steady(),
                self.env() == env,
                i <= needs.len(),
                texts == aur_tree::dep_texts(env.m, text::strs(needs@)),
                self.st() == (St { resolved: self.st().resolved, ..st }),
                forall|x: Seq<char>|
                    #[trigger] self.st().resolved.contains(x) <==> st.resolved.contains(x) || (
                    exists|j: int| 0 <= j < i && #[trigger] texts[j] == x),
            decreases needs.len() - i,
        {
            let ghost cur = self.st().resolved;
            let dep = self.alpm.depend(needs[i].as_str());
            let _ = self.resolved.insert(dep.text);
            proof {
                assert(texts[i as int] == dep.text@);
                assert forall|x: Seq<char>|
                    #[trigger] self.st().resolved.contains(x) <==> st.resolved.contains(x) || (
                    exists|j: int| 0 <= j < i + 1 && #[trigger] texts[j] == x) by {
                    assert(self.st().resolved == cur.insert(dep.text@));
                    assert(cur.contains(x) <==> st.resolved.contains(x) || (exists|j: int|
                        0 <= j < i && #[trigger] texts[j] == x));
                }
            }
            i = i + 1;
        }
        proof {
            assert(self.st().resolved =~= st.resolved.union(texts.to_set()));
        }
    }

    /// What a package of a pkgbuild repo needs from the AUR, by itself and by the packages of
    /// pkgbuild repos that it needs. None where those go more than `depth` steps deep.
    pub fn find_aur_deps_of_pkgbuild(&mut self, targ: &Targ, depth: usize) -> (r: Option<
        Vec<String>,
    >)
        requires
            old(self).able(),
        ensures
            final(self).able(),
            final(self).steady() == old(self).steady(),
            final(self).env() == old(self).env(),
            final(self).st() == (St { resolved: final(self).st().resolved, ..old(self).st() }),
            match r {
                Some(v) => old(self).env().pkgbuild_needs(
                    depth as nat,
                    old(self).st().resolved,
                    targ@,
                ) == Some((final(self).st().resolved, text::strs(v@))),
                None => old(self).env().pkgbuild_needs(
                    depth as nat,
                    old(self).st().resolved,
                    targ@,
                ) is None,
            },
        decreases depth,
    {
        let ghost env = self.env();
        let ghost st = self.st();
        let mut own: Vec<String> = Vec::new();
        proof {
            assert(text::strs(own@) =~= Seq::<Seq<char>>::empty());
        }
        if self.flags.contains(Flags::NO_DEPS) {
            return Some(own);
        }
        let dep = self.alpm.depend(targ.pkg.as_str());
        let who = match self.find_pkgbuild_repo_dep(targ.repo.as_ref(), &dep) {
            Some((_, base, pkg)) => AurOrPkgbuild::Pkgbuild(base, pkg),
            None => {
                return Some(own);
            },
        };
        let deps = who.depends(&self.arch(), self.flags.contains(Flags::CHECK_DEPENDS));
        let ghost needs = env.needs(who);
        let ghost p = env.wants_aur(st.resolved);
        let ghost q = env.wants_pkgbuild(st.resolved);
        let mut nested: Vec<String> = Vec::new();
        let mut i: usize = 0;
        proof {
            seqs::lemma_filter_none(needs, p);
            seqs::lemma_filter_none(needs, q);
            assert(text::strs(nested@) =~= aur_tree::dep_texts(env.m, needs.take(0).filter(q)));
        }
        while i < deps.len()
            invariant
                self.able(),
                self.steady() == old(self).steady(),
                self.env() == env,
                self.st() == st,
                i <= deps.len(),
                needs == text::strs(deps@),
                p == env.wants_aur(st.resolved),
                q == env.wants_pkgbuild(st.resolved),
                text::strs(own@) == needs.take(i as int).filter(p),
                text::strs(nested@) == aur_tree::dep_texts(env.m, needs.take(i as int).filter(q)),
            decreases deps.len() - i,
        {
            let need = &deps[i];
            let dep = self.alpm.depend(need.as_str());
            proof {
                assert(needs[i as int] == need@);
                seqs::lemma_filter_take(needs, p, i as int);
                seqs::lemma_filter_take(needs, q, i as int);
            }
            if self.is_wanted(need, &dep) {
                if self.find_pkgbuild_repo_dep(None, &dep).is_some() {
                    proof {
                        assert(env.in_pkgbuilds()(need@));
                        assert(q(need@) && !p(need@));
                        let f = needs.take(i as int).filter(q);
                        assert(aur_tree::dep_texts(env.m, f.push(need@)) =~= aur_tree::dep_texts(
                            env.m,
                            f,
                        ).push(dep.text@));
                        lemma_strs_push(nested@, dep.text);
                    }
                    nested.push(dep.text);
                } else {
                    proof {
                        assert(!env.in_pkgbuilds()(need@));
                        assert(p(need@) && !q(need@));
                    }
                    own.push(need.clone());
                    proof {
                        lemma_strs_push(own@.drop_last(), own@.last());
                        assert(own@.drop_last().push(own@.last()) =~= own@);
                    }
                }
            } else {
                assert(!p(need@) && !q(need@));
            }
            i = i + 1;
        }
        proof {
            assert(needs.take(i as int) =~= needs);
        }
        let ghost all = text::strs(nested@);
        let mut ret = text::copy_names(&own);
        let mut more: Vec<String> = Vec::new();
        let mut k: usize = 0;
        proof {
            assert(all.skip(0) =~= all);
            if let Some((r, tail)) = env.nested_needs(depth as nat, st.resolved, all) {
                assert(text::strs(more@) + tail =~= tail);
            }
        }
        while k < nested.len()
            invariant
                self.able(),
                self.steady() == old(self).steady(),
                self.env() == env,
                self.st() == (St { resolved: self.st().resolved, ..st }),
                k <= nested.len(),
                all == text::strs(nested@),
                env.nested_needs(depth as nat, st.resolved, all) == appended(
                    text::strs(more@),
                    env.nested_needs(depth as nat, self.st().resolved, all.skip(k as int)),
                ),
                st == old(self).st(),
                env == old(self).env(),
                env.pkgbuild_needs(depth as nat, st.resolved, targ@) == (match env.nested_needs(
                    depth as nat,
                    st.resolved,
                    all,
                ) {
                    None => None,
                    Some((r, m)) => Some(
                        (
                            r.union(aur_tree::dep_texts(env.m, text::strs(own@)).to_set()),
                            text::strs(own@) + m,
                        ),
                    ),
                }),
            decreases nested.len() - k,
        {
            proof {
                assert(all.skip(k as int)[0] == nested@[k as int]@);
                assert(all.skip(k as int).drop_first() =~= all.skip(k + 1));
            }
            if depth == 0 {
                return None;
            }
            let targ = Targ { repo: None, pkg: nested[k].clone() };
            let ghost cur = self.st().resolved;
            match self.find_aur_deps_of_pkgbuild(&targ, depth - 1) {
                None => {
                    return None;
                },
                Some(v) => {
                    let ghost before = text::strs(more@);
                    pkg::extend_names(&mut more, &v);
                    proof {
                        if let Some((r, tail)) = env.nested_needs(
                            depth as nat,
                            self.st().resolved,
                            all.skip(k + 1),
                        ) {
                            assert(before + (text::strs(v@) + tail) =~= text::strs(more@) + tail);
                        }
                    }
                },
            }
            k = k + 1;
        }
        pkg::extend_names(&mut ret, &more);
        proof {
            assert(text::strs(more@) + Seq::<Seq<char>>::empty() =~= text::strs(more@));
        }
        self.mark_resolved(&own);
        Some(ret)
    }

    /// Looks for providers.
    fn search_provides(&self, pkgs: Vec<String>, found: Vec<Arc<AurPkg>>) -> (r: Next)
        requires
            self.able(),
        ensures
            r@ == self.env().search(text::strs(pkgs@), found@),
    {
        let names = without_vers(&pkgs);
        let ghost all = text::strs(names@);
        let ghost p = self.env().not_installed();
        let mut queries: Vec<String> = Vec::new();
        let mut i: usize = 0;
        proof {
            seqs::lemma_filter_none(all, p);
            assert(text::strs(queries@) =~= Seq::<Seq<char>>::empty());
        }
        while i < names.len()
            invariant
                self.able(),
                i <= names.len(),
                all == text::strs(names@),
                p == self.env().not_installed(),
                text::strs(queries@) == all.take(i as int).filter(p),
            decreases names.len() - i,
        {
            proof {
                assert(all[i as int] == names@[i as int]@);
                seqs::lemma_filter_take(all, p, i as int);
            }
            if self.local_pkg(&names[i]).is_none() {
                proof {
                    assert(p(all[i as int]));
                    lemma_strs_push(queries@, names@[i as int]);
                }
                queries.push(names[i].clone());
            } else {
                assert(!p(all[i as int]));
            }
            i = i + 1;
        }
        proof {
            assert(all.take(i as int) =~= all);
        }
        Next::Search { pkgs, found, queries }
    }

    /// Tells what is to be asked for given what is to be looked up.
    pub fn cache_aur_pkgs(&self, pkgs: Vec<String>, target: bool) -> (r: Next)
        requires
            self.able(),
        ensures
            r@ == self.env().lookup(text::strs(pkgs@), target),
    {
        if pkgs.len() == 0 {
            return Next::Done;
        }
        let queries = text::sort_dedup(without_vers(&pkgs));
        let provides = if target {
            Flags::TARGET_PROVIDES
        } else {
            Flags::NON_TARGET_PROVIDES
        };
        if self.flags.contains(Flags::PROVIDES) || self.flags.contains(provides) {
            self.search_provides(queries, Vec::new())
        } else {
            Next::Info { pkgs, queries }
        }
    }

    /// Tells what is to be asked for given what is to be looked up, part of it in pkgbuild repos.
    pub fn cache_round(
        &mut self,
        pkgs: &Vec<String>,
        pkgbuilds: &Vec<Targ>,
        target: bool,
        depth: usize,
    ) -> (r: Next)
        requires
            old(self).able(),
        ensures
            final(self).able(),
            final(self).steady() == old(self).steady(),
            final(self).env() == old(self).env(),
            final(self).st() == (St { resolved: final(self).st().resolved, ..old(self).st() }),
            ({
                let (resolved, next) = old(self).env().round(
                    depth as nat,
                    old(self).st().resolved,
                    text::strs(pkgs@),
                    target::targs(pkgbuilds@),
                    target,
                );
                &&& r@ == next
                &&& !(next is TooDeep) ==> final(self).st().resolved == resolved
            }),
    {
        let ghost env = self.env();
        let ghost st = self.st();
        let ghost all = target::targs(pkgbuilds@);
        let mut needs: Vec<String> = Vec::new();
        let mut i: usize = 0;
        proof {
            assert(all.skip(0) =~= all);
            if let Some((r, tail)) = env.targets_needs(depth as nat, st.resolved, all) {
                assert(text::strs(needs@) + tail =~= tail);
            }
        }
        while i < pkgbuilds.len()
            invariant
                self.able(),
                self.steady() == old(self).steady(),
                self.env() == env,
                env == old(self).env(),
                st == old(self).st(),
                self.st() == (St { resolved: self.st().resolved, ..st }),
                i <= pkgbuilds.len(),
                all == target::targs(pkgbuilds@),
                env.targets_needs(depth as nat, st.resolved, all) == appended(
                    text::strs(needs@),
                    env.targets_needs(depth as nat, self.st().resolved, all.skip(i as int)),
                ),
            decreases pkgbuilds.len() - i,
        {
            proof {
                assert(all.skip(i as int)[0] == pkgbuilds@[i as int]@);
                assert(all.skip(i as int).drop_first() =~= all.skip(i + 1));
            }
            match self.find_aur_deps_of_pkgbuild(&pkgbuilds[i], depth) {
                None => {
                    return Next::TooDeep;
                },
                Some(v) => {
                    let ghost before = text::strs(needs@);
                    pkg::extend_names(&mut needs, &v);
                    proof {
                        if let Some((r, tail)) = env.targets_needs(
                            depth as nat,
                            self.st().resolved,
                            all.skip(i + 1),
                        ) {
                            assert(before + (text::strs(v@) + tail) =~= text::strs(needs@) + tail);
                        }
                    }
                },
            }
            i = i + 1;
        }
        proof {
            assert(text::strs(needs@) + Seq::<Seq<char>>::empty() =~= text::strs(needs@));
        }
        pkg::extend_names(&mut needs, pkgs);
        self.cache_aur_pkgs(needs, target)
    }

    /// What the packages depend on.
    fn aur_needs(&self, found: &Vec<Arc<AurPkg>>) -> (r: Vec<String>)
        ensures
            text::strs(r@) == seqs::flat(found@, self.env().aur_needs()),
    {
        let ghost f = self.env().aur_needs();
        let mut r: Vec<String> = Vec::new();
        let mut i: usize = 0;
        proof {
            assert(found@.skip(0) =~= found@);
            assert(text::strs(r@) + seqs::flat(found@, f) =~= seqs::flat(found@, f));
        }
        while i < found.len()
            invariant
                i <= found.len(),
                f == self.env().aur_needs(),
                text::strs(r@) + seqs::flat(found@.skip(i as int), f) == seqs::flat(found@, f),
            decreases found.len() - i,
        {
            let ghost before = text::strs(r@);
            let p = &found[i];
            pkg::extend_names(&mut r, &p.depends);
            pkg::extend_names(&mut r, &p.make_depends);
            if self.flags.contains(Flags::CHECK_DEPENDS) {
                pkg::extend_names(&mut r, &p.check_depends);
            }
            proof {
                assert(found@.skip(i as int)[0] == found@[i as int]);
                assert(found@.skip(i as int).drop_first() =~= found@.skip(i + 1));
                assert(text::strs(r@) =~= before + f(found@[i as int]));
                assert(before + seqs::flat(found@.skip(i as int), f) =~= text::strs(r@)
                    + seqs::flat(found@.skip(i + 1), f));
            }
            i = i + 1;
        }
        proof {
            assert(text::strs(r@) + seqs::flat(found@.skip(i as int), f) =~= text::strs(r@));
        }
        r
    }

    /// Which of the dependencies are to be looked up, each of them once.
    fn new_pkgs(&mut self, needs: &Vec<String>) -> (r: Vec<String>)
        requires
            old(self).able(),
        ensures
            final(self).able(),
            final(self).steady() == old(self).steady(),
            final(self).env() == old(self).env(),
            final(self).st() == (St { resolved: final(self).st().resolved, ..old(self).st() }),
            old(self).env().fresh(old(self).st().resolved, text::strs(needs@)) == (
                final(self).st().resolved,
                text::strs(r@),
            ),
    {
        let ghost env = self.env();
        let ghost st = self.st();
        let ghost all = text::strs(needs@);
        let mut r: Vec<String> = Vec::new();
        let mut i: usize = 0;
        proof {
            assert(all.skip(0) =~= all);
            assert(text::strs(r@) + env.fresh(st.resolved, all).1 =~= env.fresh(
                st.resolved,
                all,
            ).1);
        }
        while i < needs.len()
            invariant
                self.able(),
                self.steady() == old(self).steady(),
                self.env() == env,
                self.st() == (St { resolved: self.st().resolved, ..st }),
                i <= needs.len(),
                all == text::strs(needs@),
                env.fresh(st.resolved, all) == (
                    env.fresh(self.st().resolved, all.skip(i as int)).0,
                    text::strs(r@) + env.fresh(self.st().resolved, all.skip(i as int)).1,
                ),
            decreases needs.len() - i,
        {
            let need = &needs[i];
            let dep = self.alpm.depend(need.as_str());
            proof {
                assert(all.skip(i as int)[0] == need@);
                assert(all.skip(i as int).drop_first() =~= all.skip(i + 1));
            }
            if self.is_wanted(need, &dep) {
                let ghost before = r@;
                let _ = self.resolved.insert(dep.text);
                r.push(need.clone());
                proof {
                    lemma_strs_push(before, r@.last());
                    assert(before.push(r@.last()) =~= r@);
                    let tail = env.fresh(self.st().resolved, all.skip(i + 1)).1;
                    assert(text::strs(before) + (seq![need@] + tail) =~= text::strs(r@) + tail);
                }
            }
            i = i + 1;
        }
        proof {
            assert(text::strs(r@) + Seq::<Seq<char>>::empty() =~= text::strs(r@));
        }
        r
    }

    /// Tells what is to be asked for once packages have been found.
    pub fn cache_aur_pkgs_recursive(&mut self, found: &Vec<Arc<AurPkg>>, depth: usize) -> (r: Next)
        requires
            old(self).able(),
        ensures
            final(self).able(),
            final(self).steady() == old(self).steady(),
            final(self).env() == old(self).env(),
            final(self).st() == (St { resolved: final(self).st().resolved, ..old(self).st() }),
            ({
                let (resolved, next) = old(self).env().follow(
                    depth as nat,
                    old(self).st().resolved,
                    found@,
                );
                &&& r@ == next
                &&& !(next is TooDeep) ==> final(self).st().resolved == resolved
            }),
    {
        let ghost env = self.env();
        if self.flags.contains(Flags::NO_DEPS) {
            return Next::Done;
        }
        let needs = self.aur_needs(found);
        let new = self.new_pkgs(&needs);
        if new.len() == 0 {
            return Next::Done;
        }
        let ghost all = text::strs(new@);
        let ghost p = env.not_in_pkgbuilds();
        let ghost q = env.in_pkgbuilds();
        let mut pkgs: Vec<String> = Vec::new();
        let mut pkgbuilds: Vec<Targ> = Vec::new();
        let mut i: usize = 0;
        proof {
            seqs::lemma_filter_none(all, p);
            seqs::lemma_filter_none(all, q);
            assert(text::strs(pkgs@) =~= Seq::<Seq<char>>::empty());
            assert(target::targs(pkgbuilds@) =~= any_repo(all.take(0).filter(q)));
        }
        while i < new.len()
            invariant
                self.able(),
                self.steady() == old(self).steady(),
                self.env() == env,
                i <= new.len(),
                all == text::strs(new@),
                p == env.not_in_pkgbuilds(),
                q == env.in_pkgbuilds(),
                text::strs(pkgs@) == all.take(i as int).filter(p),
                target::targs(pkgbuilds@) == any_repo(all.take(i as int).filter(q)),
            decreases new.len() - i,
        {
            let need = &new[i];
            let dep = self.alpm.depend(need.as_str());
            proof {
                assert(all[i as int] == need@);
                seqs::lemma_filter_take(all, p, i as int);
                seqs::lemma_filter_take(all, q, i as int);
            }
            if self.find_pkgbuild_repo_dep(None, &dep).is_some() {
                let ghost before = pkgbuilds@;
                pkgbuilds.push(Targ { repo: None, pkg: need.clone() });
                proof {
                    assert(q(need@) && !p(need@));
                    let f = all.take(i as int).filter(q);
                    assert(any_repo(f.push(need@)) =~= any_repo(f).push(
                        TargV { repo: None, pkg: need@ },
                    ));
                    assert(target::targs(pkgbuilds@) =~= target::targs(before).push(
                        TargV { repo: None, pkg: need@ },
                    ));
                }
            } else {
                let ghost before = pkgs@;
                pkgs.push(need.clone());
                proof {
                    assert(!q(need@) && p(need@));
                    lemma_strs_push(before, pkgs@.last());
                    assert(before.push(pkgs@.last()) =~= pkgs@);
                }
            }
            i = i + 1;
        }
        proof {
            assert(all.take(i as int) =~= all);
        }
        self.cache_round(&pkgs, &pkgbuilds, false, depth)
    }

    /// Adds packages to the cache.
    pub fn cache_pkgs(&mut self, info: &Vec<Arc<AurPkg>>)
        requires
            old(self).able(),
        ensures
            final(self).able(),
            final(self).steady() == old(self).steady(),
            final(self).env() == (Env {
                cache: cache::inserted_all(old(self).env().cache, info@),
                ..old(self).env()
            }),
            final(self).st() == old(self).st(),
    {
        let ghost env = self.env();
        let ghost st = self.st();
        let mut i: usize = 0;
        proof {
            assert(info@.skip(0) =~= info@);
        }
        while i < info.len()
            invariant
                self.able(),
                self.steady() == old(self).steady(),
                self.env() == (Env { cache: self.env().cache, ..env }),
                self.st() == st,
                i <= info.len(),
                cache::inserted_all(env.cache, info@) == cache::inserted_all(
                    self.env().cache,
                    info@.skip(i as int),
                ),
            decreases info.len() - i,
        {
            proof {
                assert(info@.skip(i as int)[0] == info@[i as int]);
                assert(info@.skip(i as int).drop_first() =~= info@.skip(i + 1));
            }
            let _ = self.cache.insert(info[i].clone());
            i = i + 1;
        }
    }

    /// Does one of the packages meet the dependency.
    fn any_satisfies(&self, found: &Vec<Arc<AurPkg>>, dep: &Depend) -> (r: bool)
        requires
            self.able(),
        ensures
            r == seqs::any(found@, self.env().aur_sat(dep@)),
    {
        let nover = self.nover();
        let ghost p = self.env().aur_sat(dep@);
        let mut i: usize = 0;
        while i < found.len()
            invariant
                self.able(),
                i <= found.len(),
                nover == self.env().nover(),
                p == self.env().aur_sat(dep@),
                forall|j: int| 0 <= j < i ==> !p(#[trigger] found@[j]),
            decreases found.len() - i,
        {
            if found[i].satisfies_dep(self.alpm, dep, nover) {
                assert(p(found@[i as int]));
                return true;
            }
            assert(!p(found@[i as int]));
            i = i + 1;
        }
        false
    }

    /// Starts looking packages up: what the targets need.
    ///
    /// `depth` is how many steps packages of pkgbuild repos may depend on one another. What
    /// [`pkgbuild_depth`](Resolver::pkgbuild_depth) gives is enough unless they do so in a circle.
    pub fn cache_targets(&mut self, targets: &Targets<'a>, depth: usize) -> (r: Next)
        requires
            old(self).able(),
        ensures
            final(self).able(),
            final(self).steady() == old(self).steady(),
            final(self).env() == old(self).env(),
            final(self).st() == (St { resolved: final(self).st().resolved, ..old(self).st() }),
            ({
                let (resolved, next) = old(self).env().round(
                    depth as nat,
                    old(self).st().resolved,
                    targets@.aur,
                    targets@.pkgbuild,
                    true,
                );
                &&& r@ == next
                &&& !(next is TooDeep) ==> final(self).st().resolved == resolved
            }),
    {
        self.cache_round(&targets.aur, &targets.pkgbuild, true, depth)
    }

    /// Goes on once the info of packages has come in.
    pub fn on_info(&mut self, pkgs: Vec<String>, info: Vec<Arc<AurPkg>>, depth: usize) -> (r: Next)
        requires
            old(self).able(),
        ensures
            final(self).able(),
            final(self).steady() == old(self).steady(),
            final(self).env() == (Env {
                cache: cache::inserted_all(old(self).env().cache, info@),
                ..old(self).env()
            }),
            final(self).st() == (St { resolved: final(self).st().resolved, ..old(self).st() }),
            ({
                let (resolved, next) = final(self).env().after_info(
                    depth as nat,
                    old(self).st().resolved,
                    text::strs(pkgs@),
                    info@,
                );
                &&& r@ == next
                &&& !(next is TooDeep) ==> final(self).st().resolved == resolved
            }),
    {
        self.cache_pkgs(&info);
        let ghost env = self.env();
        if self.flags.contains(Flags::PROVIDES) || self.flags.contains(Flags::MISSING_PROVIDES) {
            let ghost all = text::strs(pkgs@);
            let ghost p = env.unmet(info@);
            let mut missing: Vec<String> = Vec::new();
            let mut i: usize = 0;
            proof {
                seqs::lemma_filter_none(all, p);
                assert(text::strs(missing@) =~= aur_tree::dep_texts(env.m, all.take(0).filter(p)));
            }
            while i < pkgs.len()
                invariant
                    self.able(),
                    self.steady() == old(self).steady(),
                    self.env() == env,
                    i <= pkgs.len(),
                    all == text::strs(pkgs@),
                    p == env.unmet(info@),
                    text::strs(missing@) == aur_tree::dep_texts(
                        env.m,
                        all.take(i as int).filter(p),
                    ),
                decreases pkgs.len() - i,
            {
                let dep = self.alpm.depend(pkgs[i].as_str());
                proof {
                    assert(all[i as int] == pkgs@[i as int]@);
                    seqs::lemma_filter_take(all, p, i as int);
                }
                if !self.any_satisfies(&info, &dep) {
                    proof {
                        assert(p(all[i as int]));
                        let f = all.take(i as int).filter(p);
                        assert(aur_tree::dep_texts(env.m, f.push(all[i as int]))
                            =~= aur_tree::dep_texts(env.m, f).push(dep.text@));
                        lemma_strs_push(missing@, dep.text);
                    }
                    missing.push(dep.text);
                } else {
                    assert(!p(all[i as int]));
                }
                i = i + 1;
            }
            proof {
                assert(all.take(i as int) =~= all);
            }
            if missing.len() > 0 {
                return self.search_provides(missing, info);
            }
        }
        self.cache_aur_pkgs_recursive(&info, depth)
    }

    /// Goes on once the names of providers have come in: asks for their info.
    pub fn on_search(
        &self,
        pkgs: Vec<String>,
        found: Vec<Arc<AurPkg>>,
        names: Vec<String>,
    ) -> (r: Next)
        ensures
            r@ == (NextV::ProvidesInfo {
                pkgs: text::strs(pkgs@),
                found: found@,
                queries: text::dedup(text::sorted(text::strs(pkgs@) + text::strs(names@))),
            }),
    {
        let mut queries = text::copy_names(&pkgs);
        pkg::extend_names(&mut queries, &names);
        let queries = text::sort_dedup(queries);
        Next::ProvidesInfo { pkgs, found, queries }
    }

    /// Goes on once the info of providers has come in: those that meet what is being looked up are
    /// kept.
    pub fn on_provides_info(
        &mut self,
        pkgs: Vec<String>,
        found: Vec<Arc<AurPkg>>,
        info: Vec<Arc<AurPkg>>,
        depth: usize,
    ) -> (r: Next)
        requires
            old(self).able(),
        ensures
            final(self).able(),
            final(self).steady() == old(self).steady(),
            final(self).env() == (Env {
                cache: cache::inserted_all(old(self).env().cache, info@),
                ..old(self).env()
            }),
            final(self).st() == (St { resolved: final(self).st().resolved, ..old(self).st() }),
            ({
                let kept = info@.filter(final(self).env().provides(text::strs(pkgs@)));
                let (resolved, next) = final(self).env().follow(
                    depth as nat,
                    old(self).st().resolved,
                    found@ + kept,
                );
                &&& r@ == next
                &&& !(next is TooDeep) ==> final(self).st().resolved == resolved
            }),
    {
        self.cache_pkgs(&info);
        let ghost env = self.env();
        let nover = self.nover();
        let ghost names = text::strs(pkgs@);
        let ghost p = env.provides(names);
        let ghost start = found@;
        let deps = satisfies::parse_all(self.alpm, &pkgs);
        let mut found = found;
        let mut i: usize = 0;
        proof {
            assert(depend::deps(deps@).len() == satisfies::parsed(env.m, names).len());
            seqs::lemma_filter_none(info@, p);
            assert(found@ =~= start + info@.take(0).filter(p));
        }
        while i < info.len()
            invariant
                self.able(),
                self.steady() == old(self).steady(),
                self.env() == env,
                nover == env.nover(),
                i <= info.len(),
                names == text::strs(pkgs@),
                p == env.provides(names),
                deps@.len() == names.len(),
                depend::deps(deps@) == satisfies::parsed(env.m, names),
                found@ == start + info@.take(i as int).filter(p),
            decreases info.len() - i,
        {
            let mut keep = false;
            let mut k: usize = 0;
            while k < deps.len() && !keep
                invariant
                    self.able(),
                    self.steady() == old(self).steady(),
                    self.env() == env,
                    nover == env.nover(),
                    i < info.len(),
                    k <= deps.len(),
                    p == env.provides(names),
                    deps@.len() == names.len(),
                    depend::deps(deps@) == satisfies::parsed(env.m, names),
                    keep ==> p(info@[i as int]),
                    !keep ==> forall|j: int|
                        0 <= j < k ==> !env.aur_sat((env.m.depend)(#[trigger] names[j]))(
                            info@[i as int],
                        ),
                decreases deps.len() - k,
            {
                proof {
                    assert(depend::deps(deps@)[k as int] == deps@[k as int]@);
                    assert(satisfies::parsed(env.m, names)[k as int] == (env.m.depend)(
                        names[k as int],
                    ));
                }
                if info[i].satisfies_dep(self.alpm, &deps[k], nover) {
                    assert(env.aur_sat((env.m.depend)(names[k as int]))(info@[i as int]));
                    keep = true;
                }
                k = k + 1;
            }
            proof {
                seqs::lemma_filter_take(info@, p, i as int);
            }
            if keep {
                found.push(info[i].clone());
            } else {
                assert(!p(info@[i as int]));
            }
            proof {
                assert(found@ =~= start + info@.take(i + 1).filter(p));
            }
            i = i + 1;
        }
        proof {
            assert(info@.take(i as int) =~= info@);
        }
        self.cache_aur_pkgs_recursive(&found, depth)
    }
}

/// What is to be looked up with more before it.
pub open spec fn appended(head: Seq<Seq<char>>, tail: Option<Lookup>) -> Option<Lookup> {
    match tail {
        None => None,
        Some((r, t)) => Some((r, head + t)),
    }
}

/// No dependency is looked up twice: what is to be looked up has not been dealt with, has been from
/// then on, and is named once. Nothing that is wanted is left out.
pub proof fn law_looked_up_once<'a>(
    env: Env<'a>,
    resolved: Set<Seq<char>>,
    needs: Seq<Seq<char>>,
)
    ensures
        ({
            let (after, new) = env.fresh(resolved, needs);
            &&& resolved.subset_of(after)
            &&& forall|i: int|
                0 <= i < new.len() ==> !resolved.contains((env.m.depend)(#[trigger] new[i]).text)
                    && after.contains((env.m.depend)(new[i]).text)
            &&& forall|i: int, j: int|
                0 <= i < j < new.len() ==> (env.m.depend)(#[trigger] new[i]).text != (env.m.depend)(
                    #[trigger] new[j],
                ).text
            &&& forall|k: int|
                0 <= k < needs.len() && env.wants(resolved, #[trigger] needs[k]) ==> after.contains(
                    (env.m.depend)(needs[k]).text,
                )
        }),
    decreases needs.len(),
{
    if needs.len() > 0 {
        let rest = needs.drop_first();
        let t = (env.m.depend)(needs[0]).text;
        let (after, new) = env.fresh(resolved, needs);
        let mid = if env.wants(resolved, needs[0]) {
            resolved.insert(t)
        } else {
            resolved
        };
        let (a, tail) = env.fresh(mid, rest);
        law_looked_up_once(env, mid, rest);
        assert(a == after);
        if env.wants(resolved, needs[0]) {
            assert(new == seq![needs[0]] + tail);
            assert forall|i: int| 0 <= i < new.len() implies !resolved.contains(
                (env.m.depend)(#[trigger] new[i]).text,
            ) && after.contains((env.m.depend)(new[i]).text) by {
                if i > 0 {
                    assert(new[i] == tail[i - 1]);
                    assert(!mid.contains((env.m.depend)(tail[i - 1]).text));
                }
            }
            assert forall|i: int, j: int| 0 <= i < j < new.len() implies (env.m.depend)(
                #[trigger] new[i],
            ).text != (env.m.depend)(#[trigger] new[j]).text by {
                assert(new[j] == tail[j - 1]);
                assert(!mid.contains((env.m.depend)(tail[j - 1]).text));
                if i > 0 {
                    assert(new[i] == tail[i - 1]);
                }
            }
        }
        assert forall|k: int|
            0 <= k < needs.len() && env.wants(resolved, #[trigger] needs[k]) implies after.contains(
            (env.m.depend)(needs[k]).text,
        ) by {
            if k > 0 {
                assert(rest[k - 1] == needs[k]);
                if (env.m.depend)(needs[k]).text != t {
                    assert(env.wants(mid, rest[k - 1]));
                } else if env.wants(resolved, needs[0]) {
                    assert(mid.contains(t));
                } else {
                    assert(env.wants(mid, rest[k - 1]));
                }
            }
        }
    }
}

/// Where dependencies among pkgbuilds do not go too deep, a greater depth changes nothing.
pub proof fn law_depth<'a>(env: Env<'a>, depth: nat, resolved: Set<Seq<char>>, targ: TargV)
    requires
        env.pkgbuild_needs(depth, resolved, targ) is Some,
    ensures
        env.pkgbuild_needs(depth + 1, resolved, targ) == env.pkgbuild_needs(depth, resolved, targ),
    decreases depth, 1nat, 0nat,
{
    if !env.flags.has(Flags::NO_DEPS) {
        if let Some((_, srcinfo, p)) = env.pkgbuild_dep(targ.repo, (env.m.depend)(targ.pkg)) {
            let needs = env.needs(AurOrPkgbuild::Pkgbuild(srcinfo, p));
            let nested = aur_tree::dep_texts(env.m, needs.filter(env.wants_pkgbuild(resolved)));
            lemma_nested_depth(env, depth, resolved, nested);
        }
    }
}

/// The same of what the packages need.
proof fn lemma_nested_depth<'a>(
    env: Env<'a>,
    depth: nat,
    resolved: Set<Seq<char>>,
    deps: Seq<Seq<char>>,
)
    requires
        env.nested_needs(depth, resolved, deps) is Some,
    ensures
        env.nested_needs(depth + 1, resolved, deps) == env.nested_needs(depth, resolved, deps),
    decreases depth, 0nat, deps.len(),
{
    if deps.len() > 0 {
        let targ = TargV { repo: None, pkg: deps[0] };
        let e = (depth - 1) as nat;
        law_depth(env, e, resolved, targ);
        let (after, head) = env.pkgbuild_needs(e, resolved, targ)->0;
        lemma_nested_depth(env, depth, after, deps.drop_first());
    }
}

/// A package of a pkgbuild repo ranks above the packages of pkgbuild repos that it needs, so that
/// none needs itself in the end.
pub open spec fn ranked<'a>(env: Env<'a>, rank: spec_fn(Srcinfo, SrcinfoPkg) -> nat) -> bool {
    forall|s: &'a Srcinfo, p: &'a SrcinfoPkg, i: int|
        0 <= i < env.needs(AurOrPkgbuild::Pkgbuild(s, p)).len() ==> below(
            env,
            rank,
            rank(*s, *p),
            #[trigger] env.needs(AurOrPkgbuild::Pkgbuild(s, p))[i],
        )
}

/// The package of a pkgbuild repo that meets the dependency, if there is one, ranks below the bound.
pub open spec fn below<'a>(
    env: Env<'a>,
    rank: spec_fn(Srcinfo, SrcinfoPkg) -> nat,
    bound: nat,
    need: Seq<char>,
) -> bool {
    env.pkgbuild_dep(None, (env.m.depend)(need)) matches Some(f) ==> rank(*f.1, *f.2) < bound
}

/// Dependencies among pkgbuilds are never too deep where they go in no circle and as many steps are
/// allowed as the package ranks.
pub proof fn law_not_too_deep<'a>(
    env: Env<'a>,
    rank: spec_fn(Srcinfo, SrcinfoPkg) -> nat,
    depth: nat,
    resolved: Set<Seq<char>>,
    targ: TargV,
)
    requires
        alpm::reads_back(env.m.depend),
        ranked(env, rank),
        env.pkgbuild_dep(targ.repo, (env.m.depend)(targ.pkg)) matches Some(f) ==> rank(
            *f.1,
            *f.2,
        ) <= depth,
    ensures
        env.pkgbuild_needs(depth, resolved, targ) is Some,
    decreases depth, 1nat, 0nat,
{
    if let Some((_, s, p)) = env.pkgbuild_dep(targ.repo, (env.m.depend)(targ.pkg)) {
        let needs = env.needs(AurOrPkgbuild::Pkgbuild(s, p));
        let q = env.wants_pkgbuild(resolved);
        let wanted = needs.filter(q);
        let nested = aur_tree::dep_texts(env.m, wanted);
        assert forall|i: int| 0 <= i < nested.len() implies env.pkgbuild_dep(
            None,
            (env.m.depend)(#[trigger] nested[i]),
        ) is Some && below(env, rank, depth, nested[i]) by {
            let need = wanted[i];
            assert(nested[i] == (env.m.depend)(need).text);
            assert((env.m.depend)(nested[i]) == (env.m.depend)(need));
            seqs::lemma_filter_contains(needs, q, need);
            assert(wanted.contains(need));
            let k = choose|k: int| 0 <= k < needs.len() && needs[k] == need;
            assert(below(env, rank, rank(*s, *p), needs[k]));
            assert(env.in_pkgbuilds()(need));
        }
        lemma_nested_not_too_deep(env, rank, depth, resolved, nested);
    }
}

/// The same of what the packages need.
proof fn lemma_nested_not_too_deep<'a>(
    env: Env<'a>,
    rank: spec_fn(Srcinfo, SrcinfoPkg) -> nat,
    depth: nat,
    resolved: Set<Seq<char>>,
    deps: Seq<Seq<char>>,
)
    requires
        alpm::reads_back(env.m.depend),
        ranked(env, rank),
        forall|i: int|
            0 <= i < deps.len() ==> env.pkgbuild_dep(
                None,
                (env.m.depend)(#[trigger] deps[i]),
            ) is Some && below(env, rank, depth, deps[i]),
    ensures
        env.nested_needs(depth, resolved, deps) is Some,
    decreases depth, 0nat, deps.len(),
{
    if deps.len() > 0 {
        let rest = deps.drop_first();
        let targ = TargV { repo: None, pkg: deps[0] };
        assert(below(env, rank, depth, deps[0]));
        let e = (depth - 1) as nat;
        law_not_too_deep(env, rank, e, resolved, targ);
        let (after, head) = env.pkgbuild_needs(e, resolved, targ)->0;
        assert forall|i: int| 0 <= i < rest.len() implies env.pkgbuild_dep(
            None,
            (env.m.depend)(#[trigger] rest[i]),
        ) is Some && below(env, rank, depth, rest[i]) by {
            assert(rest[i] == deps[i + 1]);
        }
        lemma_nested_not_too_deep(env, rank, depth, after, rest);
    }
}

} // verus!
