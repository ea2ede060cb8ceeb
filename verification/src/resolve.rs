//! The resolver.
use vstd::hash_set::StringHashSet;
use vstd::prelude::*;
use crate::actions;
use crate::actions::{Actions, DepMissing};
use crate::alpm;
use crate::alpm::{Alpm, AlpmPkg};
use crate::base;
use crate::cache;
use crate::cache::Cache;
use crate::cb;
use crate::cb::{Callback, Group};
use crate::flags::Flags;
use crate::model::{Env, St};
use crate::pkg::PkgbuildRepo;
use crate::resolve::laws::needed;
use crate::resolve::make::runtime;
use crate::resolve::split::Targets;
use crate::seqs;
use crate::target;
use crate::target::Targ;
use crate::text;

pub mod choice;
pub mod circle;
pub mod depth;
pub mod fetch;
pub mod laws;
pub mod make;
pub mod mark;
mod queries;
pub mod aur_tree;
pub mod rounds;
pub mod split;
pub mod targets;
pub mod tree;
pub mod upgrade;

verus! {

/// Resolver is the main type for resolving dependencies.
///
/// Given a list of targets of either repo or AUR packages it will resolve the dependencies needed
/// to install them.
///
/// This resolver assumes all the repo packages will be installed first, then each base is built
/// and installed together.
pub struct Resolver<'a, A, P, G, D> {
    alpm: &'a A,
    repos: Vec<PkgbuildRepo<'a>>,
    resolved: StringHashSet,
    cache: Cache,
    stack: Vec<DepMissing>,
    actions: Actions<'a, A>,
    seen: StringHashSet,
    seen_target: StringHashSet,
    flags: Flags,
    aur_namespace: Option<String>,
    provider_callback: Callback<P>,
    group_callback: Callback<G>,
    is_devel: Callback<D>,
}

impl<
    'a,
    A: Alpm,
    P: Fn(&str, &[String]) -> usize,
    G: Fn(&[Group<'a>]) -> Vec<&'a AlpmPkg>,
    D: Fn(&str) -> bool,
> Resolver<'a, A, P, G, D> {
    /// What the resolver reads.
    pub closed spec fn env(&self) -> Env<'a> {
        Env {
            m: self.alpm.model(),
            repos: self.repos@,
            cache: self.cache@,
            flags: self.flags,
            ns: text::opt_str(self.aur_namespace),
            provider: cb::provider_model(self.provider_callback),
            group: cb::group_model(self.group_callback),
            devel: cb::devel_model(self.is_devel),
        }
    }

    /// What the resolver keeps track of.
    pub closed spec fn st(&self) -> St<'a> {
        St {
            resolved: self.resolved@,
            stack: actions::steps(self.stack@),
            missing: actions::missings(self.actions.missing@),
            unneeded: actions::unneededs(self.actions.unneeded@),
            build: base::bases(self.actions.build@),
            install: self.actions.install@,
            seen: self.seen@,
            seen_target: self.seen_target@,
        }
    }

    /// libalpm answers the same way each time, the callbacks can be asked, no two cached packages
    /// have the same name, and each AUR base that is to be built has a package.
    pub closed spec fn able(&self) -> bool {
        &&& self.alpm.wf()
        &&& self.actions.alpm == self.alpm
        &&& self.cache.wf()
        &&& cb::provider_able(self.provider_callback)
        &&& cb::group_able(self.group_callback)
        &&& cb::devel_able(self.is_devel)
        &&& forall|i: int|
            0 <= i < self.actions.build@.len() ==> (#[trigger] self.actions.build@[i])@.wf()
    }

    /// The callbacks answer the same way each time.
    pub closed spec fn steady(&self) -> bool {
        &&& cb::provider_wf(self.provider_callback)
        &&& cb::group_wf(self.group_callback)
        &&& cb::devel_wf(self.is_devel)
    }

    /// The resolver is able to resolve, and its callbacks answer the same way each time.
    pub open spec fn wf(&self) -> bool {
        self.able() && self.steady()
    }

    /// The provider callback may answer with the position when it is asked about the names.
    pub closed spec fn may_choose(&self, dep: Seq<char>, names: Seq<Seq<char>>, k: int) -> bool {
        cb::provider_may(self.provider_callback, dep, names, k)
    }

    /// The group callback may pick the packages when it is asked about the groups. All of them are
    /// picked where there is no callback.
    pub closed spec fn may_pick(&self, groups: Seq<Group<'a>>, pkgs: Seq<&'a AlpmPkg>) -> bool {
        if self.group_callback.0 is Some {
            cb::group_may(self.group_callback, groups, pkgs)
        } else {
            pkgs == seqs::flat(groups, split::members())
        }
    }

    /// What is known of a resolver whose callbacks can be asked.
    pub proof fn lemma_able(&self)
        requires
            self.able(),
        ensures
            alpm::valid(self.env().m),
            cache::distinct(self.env().cache),
    {
        self.alpm.lemma_valid();
    }

    /// What is known of a resolver whose callbacks answer the same way each time.
    pub proof fn lemma_wf(&self)
        requires
            self.wf(),
        ensures
            alpm::valid(self.env().m),
            cache::distinct(self.env().cache),
            choice::picks_offered(self.env()),
    {
        self.lemma_able();
    }

    /// Create a new Resolver.
    pub fn new(alpm: &'a A, cache: Cache, flags: Flags) -> (r: Self)
        requires
            alpm.wf(),
            cache.wf(),
        ensures
            r.wf(),
            r.env() == (Env {
                m: alpm.model(),
                repos: Seq::empty(),
                cache: cache@,
                flags,
                ns: None,
                provider: None,
                group: None,
                devel: None,
            }),
            r.st() == St::<'a>::start(),
    {
        let actions: Actions<'a, A> = Actions {
            alpm,
            missing: Vec::new(),
            unneeded: Vec::new(),
            build: Vec::new(),
            install: Vec::new(),
        };
        let r = Resolver {
            alpm,
            repos: Vec::new(),
            resolved: StringHashSet::new(),
            cache,
            stack: Vec::new(),
            actions,
            seen: StringHashSet::new(),
            seen_target: StringHashSet::new(),
            flags,
            aur_namespace: None,
            provider_callback: Callback(None),
            group_callback: Callback(None),
            is_devel: Callback(None),
        };
        proof {
            assert(r.env().repos =~= Seq::empty());
            assert(r.st() =~= St::<'a>::start());
        }
        r
    }

    /// If enabled, causes `aur/foo` to mean from the AUR, instead of a repo named `aur`.
    pub fn aur_namespace(self, enable: bool) -> (r: Self)
        requires
            self.able(),
        ensures
            r.able(),
            r.steady() == self.steady(),
            r.st() == self.st(),
            r.env() == (if enable {
                Env { ns: Some(seq!['a', 'u', 'r']), ..self.env() }
            } else {
                self.env()
            }),
    {
        let mut r = self;
        if enable {
            proof {
                reveal_strlit("aur");
                assert("aur"@ =~= seq!['a', 'u', 'r']);
            }
            r.aur_namespace = Some("aur".to_owned());
        }
        r
    }

    /// Causes `<name>/foo` to mean from the AUR, instead of a repo named `<name>`.
    pub fn custom_aur_namespace(self, name: Option<String>) -> (r: Self)
        requires
            self.able(),
        ensures
            r.able(),
            r.steady() == self.steady(),
            r.st() == self.st(),
            r.env() == (Env { ns: text::opt_str(name), ..self.env() }),
    {
        let mut r = self;
        r.aur_namespace = name;
        r
    }

    /// Set the pkgbuild repos to use.
    pub fn pkgbuild_repos(self, repos: Vec<PkgbuildRepo<'a>>) -> (r: Self)
        requires
            self.able(),
        ensures
            r.able(),
            r.steady() == self.steady(),
            r.st() == self.st(),
            r.env() == (Env { repos: repos@, ..self.env() }),
    {
        let mut r = self;
        r.repos = repos;
        r
    }

    /// Getter for the aur cache.
    pub fn get_cache(&self) -> (r: &Cache)
        requires
            self.able(),
        ensures
            r.wf(),
            r@ == self.env().cache,
    {
        &self.cache
    }

    /// Mut getter for the aur cache.
    pub fn get_cache_mut(&mut self) -> (r: &mut Cache)
        requires
            old(self).able(),
        ensures
            r.wf(),
            r@ == old(self).env().cache,
            final(r).wf() ==> final(self).able(),
            final(self).steady() == old(self).steady(),
            final(self).env() == (Env { cache: final(r)@, ..old(self).env() }),
            final(self).st() == old(self).st(),
    {
        &mut self.cache
    }

    /// Set the provider callback.
    ///
    /// The provider callback will be called any time there is a choice of multiple AUR packages
    /// that can satisfy a dependency. This callback receives the dependency that we are trying to
    /// satisfy and a slice of package names satisfying it.
    ///
    /// The callback returns the index of which package to pick. While targets are resolved it is to
    /// return the same one each time it is asked the same.
    pub fn provider_callback<F: Fn(&str, &[String]) -> usize>(self, f: F) -> (r: Resolver<
        'a,
        A,
        F,
        G,
        D,
    >)
        requires
            self.able(),
            cb::provider_able(Callback(Some(f))),
        ensures
            r.able(),
            self.steady() && cb::provider_steady(f) ==> r.steady(),
            r.st() == self.st(),
            r.env() == (Env { provider: r.env().provider, ..self.env() }),
            r.env().provider matches Some(g) && (cb::provider_steady(f) ==> cb::provider_as(f, g)),
            forall|dep: Seq<char>, names: Seq<Seq<char>>, k: int| #[trigger]
                r.may_choose(dep, names, k) == cb::provider_may(
                    Callback(Some(f)),
                    dep,
                    names,
                    k,
                ),
    {
        Resolver {
            alpm: self.alpm,
            repos: self.repos,
            resolved: self.resolved,
            cache: self.cache,
            stack: self.stack,
            actions: self.actions,
            seen: self.seen,
            seen_target: self.seen_target,
            flags: self.flags,
            aur_namespace: self.aur_namespace,
            provider_callback: Callback(Some(f)),
            group_callback: self.group_callback,
            is_devel: self.is_devel,
        }
    }

    /// Set the group callback.
    ///
    /// The group callback is called whenever a group is processed. The callback receives the group
    /// and returns a list of packages that should be installed from the group.
    pub fn group_callback<F: Fn(&[Group<'a>]) -> Vec<&'a AlpmPkg>>(self, f: F) -> (r: Resolver<
        'a,
        A,
        P,
        F,
        D,
    >)
        requires
            self.able(),
            cb::group_able(Callback(Some(f))),
        ensures
            r.able(),
            self.steady() && cb::group_steady(f) ==> r.steady(),
            r.st() == self.st(),
            r.env() == (Env { group: r.env().group, ..self.env() }),
            r.env().group matches Some(g) && (cb::group_steady(f) ==> cb::group_as(f, g)),
            forall|groups: Seq<Group<'a>>, pkgs: Seq<&'a AlpmPkg>| #[trigger]
                r.may_pick(groups, pkgs) == cb::group_may(Callback(Some(f)), groups, pkgs),
    {
        Resolver {
            alpm: self.alpm,
            repos: self.repos,
            resolved: self.resolved,
            cache: self.cache,
            stack: self.stack,
            actions: self.actions,
            seen: self.seen,
            seen_target: self.seen_target,
            flags: self.flags,
            aur_namespace: self.aur_namespace,
            provider_callback: self.provider_callback,
            group_callback: Callback(Some(f)),
            is_devel: self.is_devel,
        }
    }

    /// Set the function for determining if a package is devel.
    ///
    /// Devel packages are never skipped when using NEEDED.
    ///
    /// By default, no packages are considered devel.
    pub fn is_devel<F: Fn(&str) -> bool>(self, f: F) -> (r: Resolver<'a, A, P, G, F>)
        requires
            self.able(),
            cb::devel_able(Callback(Some(f))),
        ensures
            r.able(),
            self.steady() && cb::devel_steady(f) ==> r.steady(),
            r.st() == self.st(),
            r.env() == (Env { devel: r.env().devel, ..self.env() }),
            r.env().devel matches Some(g) && (cb::devel_steady(f) ==> cb::devel_as(f, g)),
    {
        Resolver {
            alpm: self.alpm,
            repos: self.repos,
            resolved: self.resolved,
            cache: self.cache,
            stack: self.stack,
            actions: self.actions,
            seen: self.seen,
            seen_target: self.seen_target,
            flags: self.flags,
            aur_namespace: self.aur_namespace,
            provider_callback: self.provider_callback,
            group_callback: self.group_callback,
            is_devel: Callback(Some(f)),
        }
    }

    /// Resolves the targets once all that they need has been looked up.
    pub fn finish(self, targets: &Targets<'a>, make_deps: &Vec<Targ>, is_target: bool) -> (r: (
        Actions<'a, A>,
        Cache,
    ))
        requires
            self.wf(),
        ensures
            r.0.alpm.wf(),
            r.0.alpm.model() == self.env().m,
            r.1.wf(),
            r.1@ == self.env().cache,
            ({
                let st = targets::outcome(
                    self.env(),
                    self.st(),
                    targets@,
                    target::targs(make_deps@),
                    is_target,
                );
                &&& actions::missings(r.0.missing@) == st.missing
                &&& actions::unneededs(r.0.unneeded@) == st.unneeded
                &&& base::bases(r.0.build@) == st.build
                &&& r.0.install@ == st.install
                &&& self.env().flags.has(Flags::CALCULATE_MAKE) ==> runtime::keeps_runtime(
                    self.env(),
                    st,
                )
            }),
            needed::notes_right(
                self.env(),
                targets@,
                is_target,
                self.st().unneeded,
                actions::unneededs(r.0.unneeded@),
            ),
            forall|i: int| 0 <= i < r.0.build@.len() ==> (#[trigger] r.0.build@[i])@.wf(),
    {
        let mut resolver = self;
        resolver.resolved.clear();
        let mut make: Vec<String> = Vec::new();
        let mut i: usize = 0;
        while i < make_deps.len()
            invariant
                i <= make_deps.len(),
                make.len() == i,
                forall|j: int| 0 <= j < i ==> #[trigger] make@[j]@ == make_deps@[j]@.pkg,
            decreases make_deps.len() - i,
        {
            make.push(make_deps[i].pkg.clone());
            i = i + 1;
        }
        proof {
            assert(text::strs(make@) =~= targets::pkg_parts(target::targs(make_deps@)));
            assert(resolver.st() == (St { resolved: Set::empty(), ..self.st() }));
            needed::law_unneeded(
                self.env(),
                self.st(),
                targets@,
                target::targs(make_deps@),
                is_target,
            );
        }
        resolver.resolve_all_targets(targets, &make, is_target);
        if resolver.flags.contains(Flags::CALCULATE_MAKE) {
            resolver.calculate_make();
        }
        (resolver.actions, resolver.cache)
    }
}

} // verus!
