//! The package databases and the questions that are put to libalpm.
use vstd::prelude::*;
use crate::depend::{Depend, DependV, VerOrder};
use crate::target::{Targ, TargV};

verus! {

/// A package of a database.
#[derive(Debug, Clone, PartialEq, Eq)]
pub struct AlpmPkg {
    /// Package name.
    pub name: String,
    /// Package version.
    pub version: String,
    /// What the package depends on.
    pub depends: Vec<Depend>,
    /// What the package conflicts with.
    pub conflicts: Vec<Depend>,
    /// What the package provides.
    pub provides: Vec<Depend>,
    /// Does the package match ignore pkg/group.
    pub ignore: bool,
}

/// A named group of packages of a database.
#[derive(Debug, Clone, PartialEq, Eq)]
pub struct PkgGroup {
    /// Group name.
    pub name: String,
    /// The packages of the group.
    pub packages: Vec<AlpmPkg>,
}

/// A sync database.
#[derive(Debug, Clone, PartialEq, Eq)]
pub struct Db {
    /// Database name.
    pub name: String,
    /// The packages of the database.
    pub pkgs: Vec<AlpmPkg>,
    /// The groups of the database.
    pub groups: Vec<PkgGroup>,
}

/// The databases and the settings that the resolver reads.
#[derive(Debug, Clone, PartialEq, Eq)]
pub struct System {
    /// The packages that are installed.
    pub localdb: Vec<AlpmPkg>,
    /// The sync databases.
    pub syncdbs: Vec<Db>,
    /// The architectures that packages are accepted for.
    pub architectures: Vec<String>,
    /// What is to be taken as installed.
    pub assume_installed: Vec<Depend>,
}

/// `p` is in one of the sync databases.
pub open spec fn in_syncdbs(system: System, p: AlpmPkg) -> bool {
    exists|i: int, j: int|
        0 <= i < system.syncdbs@.len() && 0 <= j < system.syncdbs@[i].pkgs@.len()
            && #[trigger] system.syncdbs@[i].pkgs@[j] == p
}

/// What libalpm answers, as functions.
pub struct AlpmModel {
    /// The databases and settings.
    pub system: System,
    /// The dependency that a string stands for.
    pub depend: spec_fn(Seq<char>) -> DependV,
    /// How the first version compares to the second.
    pub vercmp: spec_fn(Seq<char>, Seq<char>) -> VerOrder,
    /// Does an installed package satisfy the dependency string.
    pub local_satisfier: spec_fn(Seq<char>) -> bool,
    /// The sync package that satisfies the dependency string, the user being asked where several do.
    pub repo_satisfier: spec_fn(Seq<char>) -> Option<AlpmPkg>,
    /// The sync package that satisfies the dependency string, with no question asked.
    pub repo_satisfier_silent: spec_fn(Seq<char>) -> Option<AlpmPkg>,
    /// The sync package that satisfies the target.
    pub target_satisfier: spec_fn(TargV) -> Option<AlpmPkg>,
}

/// What a dependency is written as stands for the dependency.
pub open spec fn reads_back(depend: spec_fn(Seq<char>) -> DependV) -> bool {
    forall|s: Seq<char>| depend((#[trigger] depend(s)).text) == depend(s)
}

/// What is found is in one of the sync databases.
pub open spec fn finds_in(system: System, find: spec_fn(Seq<char>) -> Option<AlpmPkg>) -> bool {
    forall|s: Seq<char>| #[trigger] find(s) matches Some(p) ==> in_syncdbs(system, p)
}

/// What a dependency is written as stands for the dependency, and packages are found in the sync
/// databases only.
pub open spec fn valid(m: AlpmModel) -> bool {
    &&& reads_back(m.depend)
    &&& finds_in(m.system, m.repo_satisfier)
}

/// The questions that are put to libalpm.
pub trait Alpm {
    /// Each question has one answer.
    spec fn wf(&self) -> bool;

    /// The answers.
    spec fn model(&self) -> AlpmModel;

    /// The answers are those of a libalpm.
    proof fn lemma_valid(&self)
        requires
            self.wf(),
        ensures
            valid(self.model()),
    ;

    /// The databases and settings.
    fn system(&self) -> (r: &System)
        requires
            self.wf(),
        ensures
            *r == self.model().system,
    ;

    /// Parses a dependency string.
    fn depend(&self, s: &str) -> (r: Depend)
        requires
            self.wf(),
        ensures
            r@ == (self.model().depend)(s@),
    ;

    /// Compares two versions.
    fn vercmp(&self, a: &str, b: &str) -> (r: VerOrder)
        requires
            self.wf(),
        ensures
            r == (self.model().vercmp)(a@, b@),
    ;

    /// Does an installed package satisfy the dependency string.
    fn local_satisfier(&self, s: &str) -> (r: bool)
        requires
            self.wf(),
        ensures
            r == (self.model().local_satisfier)(s@),
    ;

    /// The sync package that satisfies the dependency string.
    fn repo_satisfier(&self, s: &str) -> (r: Option<&AlpmPkg>)
        requires
            self.wf(),
        ensures
            r == as_ref((self.model().repo_satisfier)(s@)),
            r matches Some(p) ==> in_syncdbs(self.model().system, *p),
    ;

    /// The sync package that satisfies the dependency string, with no question asked.
    fn repo_satisfier_silent(&self, s: &str) -> (r: Option<&AlpmPkg>)
        requires
            self.wf(),
        ensures
            r == as_ref((self.model().repo_satisfier_silent)(s@)),
    ;

    /// The sync package that satisfies the target.
    fn target_satisfier(&self, t: &Targ) -> (r: Option<&AlpmPkg>)
        requires
            self.wf(),
        ensures
            r == as_ref((self.model().target_satisfier)(t@)),
            r matches Some(p) ==> in_syncdbs(self.model().system, *p),
    ;
}

/// An optional value by reference.
pub open spec fn as_ref<'a, T>(o: Option<T>) -> Option<&'a T> {
    match o {
        Some(v) => Some(&v),
        None => None,
    }
}

/// The position of a sync package: of its database, and in it.
pub type PkgIndex = (usize, usize);

/// There is a package at the position.
pub open spec fn index_ok(system: System, r: Option<PkgIndex>) -> bool {
    r matches Some(i) ==> i.0 < system.syncdbs@.len() && i.1 < system.syncdbs@[i.0 as int].pkgs@.len()
}

/// The package at the position.
pub open spec fn pkg_at(system: System, r: Option<PkgIndex>) -> Option<AlpmPkg> {
    match r {
        Some(i) => Some(system.syncdbs@[i.0 as int].pkgs@[i.1 as int]),
        None => None,
    }
}

/// `f` parses dependencies as `g` does, which reads back what it wrote.
pub open spec fn depend_as<F: Fn(&str) -> Depend>(f: F, g: spec_fn(Seq<char>) -> DependV) -> bool {
    &&& forall|s: &str| call_requires(f, (s,))
    &&& forall|s: &str, r: Depend| call_ensures(f, (s,), r) ==> r@ == g(s@)
    &&& reads_back(g)
}

/// `f` compares versions as `g` does.
pub open spec fn vercmp_as<F: Fn(&str, &str) -> VerOrder>(
    f: F,
    g: spec_fn(Seq<char>, Seq<char>) -> VerOrder,
) -> bool {
    &&& forall|a: &str, b: &str| call_requires(f, (a, b))
    &&& forall|a: &str, b: &str, r: VerOrder| call_ensures(f, (a, b), r) ==> r == g(a@, b@)
}

/// `f` looks installed packages up as `g` does.
pub open spec fn local_as<F: Fn(&str) -> bool>(f: F, g: spec_fn(Seq<char>) -> bool) -> bool {
    &&& forall|s: &str| call_requires(f, (s,))
    &&& forall|s: &str, r: bool| call_ensures(f, (s,), r) ==> r == g(s@)
}

/// `f` looks sync packages up as `g` does, which finds packages of the sync databases only.
pub open spec fn repo_as<F: Fn(&str) -> Option<PkgIndex>>(
    system: System,
    f: F,
    g: spec_fn(Seq<char>) -> Option<AlpmPkg>,
) -> bool {
    &&& forall|s: &str| call_requires(f, (s,))
    &&& forall|s: &str, r: Option<PkgIndex>|
        call_ensures(f, (s,), r) ==> index_ok(system, r) && pkg_at(system, r) == g(s@)
    &&& finds_in(system, g)
}

/// `f` looks targets up as `g` does.
pub open spec fn target_as<F: Fn(&Targ) -> Option<PkgIndex>>(
    system: System,
    f: F,
    g: spec_fn(TargV) -> Option<AlpmPkg>,
) -> bool {
    &&& forall|t: &Targ| call_requires(f, (t,))
    &&& forall|t: &Targ, r: Option<PkgIndex>|
        call_ensures(f, (t,), r) ==> index_ok(system, r) && pkg_at(system, r) == g(t@)
}

/// Databases together with the functions that answer the questions about them.
pub struct Handle<D, V, L, R, S, T> {
    system: System,
    depend: D,
    vercmp: V,
    local_satisfier: L,
    repo_satisfier: R,
    repo_satisfier_silent: S,
    target_satisfier: T,
}

impl<
    D: Fn(&str) -> Depend,
    V: Fn(&str, &str) -> VerOrder,
    L: Fn(&str) -> bool,
    R: Fn(&str) -> Option<PkgIndex>,
    S: Fn(&str) -> Option<PkgIndex>,
    T: Fn(&Targ) -> Option<PkgIndex>,
> Handle<D, V, L, R, S, T> {
    /// Create a new handle. Each function is to answer a question the same way each time it is put.
    pub fn new(
        system: System,
        depend: D,
        vercmp: V,
        local_satisfier: L,
        repo_satisfier: R,
        repo_satisfier_silent: S,
        target_satisfier: T,
    ) -> (r: Self)
        requires
            exists|g: spec_fn(Seq<char>) -> DependV| depend_as(depend, g),
            exists|g: spec_fn(Seq<char>, Seq<char>) -> VerOrder| vercmp_as(vercmp, g),
            exists|g: spec_fn(Seq<char>) -> bool| local_as(local_satisfier, g),
            exists|g: spec_fn(Seq<char>) -> Option<AlpmPkg>| repo_as(system, repo_satisfier, g),
            exists|g: spec_fn(Seq<char>) -> Option<AlpmPkg>|
                repo_as(system, repo_satisfier_silent, g),
            exists|g: spec_fn(TargV) -> Option<AlpmPkg>| target_as(system, target_satisfier, g),
        ensures
            r.wf(),
            r.model().system == system,
            depend_as(depend, r.model().depend),
            vercmp_as(vercmp, r.model().vercmp),
            local_as(local_satisfier, r.model().local_satisfier),
            repo_as(system, repo_satisfier, r.model().repo_satisfier),
            repo_as(system, repo_satisfier_silent, r.model().repo_satisfier_silent),
            target_as(system, target_satisfier, r.model().target_satisfier),
    {
        Handle {
            system,
            depend,
            vercmp,
            local_satisfier,
            repo_satisfier,
            repo_satisfier_silent,
            target_satisfier,
        }
    }

    /// The package at a position.
    fn at(&self, i: Option<PkgIndex>) -> (r: Option<&AlpmPkg>)
        requires
            index_ok(self.system, i),
        ensures
            r == as_ref(pkg_at(self.system, i)),
            r matches Some(p) ==> in_syncdbs(self.system, *p),
    {
        match i {
            Some(i) => Some(&self.system.syncdbs[i.0].pkgs[i.1]),
            None => None,
        }
    }
}

impl<
    D: Fn(&str) -> Depend,
    V: Fn(&str, &str) -> VerOrder,
    L: Fn(&str) -> bool,
    R: Fn(&str) -> Option<PkgIndex>,
    S: Fn(&str) -> Option<PkgIndex>,
    T: Fn(&Targ) -> Option<PkgIndex>,
> Alpm for Handle<D, V, L, R, S, T> {
    closed spec fn wf(&self) -> bool {
        &&& depend_as(self.depend, self.model().depend)
        &&& vercmp_as(self.vercmp, self.model().vercmp)
        &&& local_as(self.local_satisfier, self.model().local_satisfier)
        &&& repo_as(self.system, self.repo_satisfier, self.model().repo_satisfier)
        &&& repo_as(self.system, self.repo_satisfier_silent, self.model().repo_satisfier_silent)
        &&& target_as(self.system, self.target_satisfier, self.model().target_satisfier)
    }

    closed spec fn model(&self) -> AlpmModel {
        AlpmModel {
            system: self.system,
            depend: choose|g: spec_fn(Seq<char>) -> DependV| depend_as(self.depend, g),
            vercmp: choose|g: spec_fn(Seq<char>, Seq<char>) -> VerOrder| vercmp_as(self.vercmp, g),
            local_satisfier: choose|g: spec_fn(Seq<char>) -> bool| local_as(self.local_satisfier, g),
            repo_satisfier: choose|g: spec_fn(Seq<char>) -> Option<AlpmPkg>|
                repo_as(self.system, self.repo_satisfier, g),
            repo_satisfier_silent: choose|g: spec_fn(Seq<char>) -> Option<AlpmPkg>|
                repo_as(self.system, self.repo_satisfier_silent, g),
            target_satisfier: choose|g: spec_fn(TargV) -> Option<AlpmPkg>|
                target_as(self.system, self.target_satisfier, g),
        }
    }

    proof fn lemma_valid(&self) {
    }

    fn system(&self) -> (r: &System) {
        &self.system
    }

    fn depend(&self, s: &str) -> (r: Depend) {
        (self.depend)(s)
    }

    fn vercmp(&self, a: &str, b: &str) -> (r: VerOrder) {
        (self.vercmp)(a, b)
    }

    fn local_satisfier(&self, s: &str) -> (r: bool) {
        (self.local_satisfier)(s)
    }

    fn repo_satisfier(&self, s: &str) -> (r: Option<&AlpmPkg>) {
        self.at((self.repo_satisfier)(s))
    }

    fn repo_satisfier_silent(&self, s: &str) -> (r: Option<&AlpmPkg>) {
        self.at((self.repo_satisfier_silent)(s))
    }

    fn target_satisfier(&self, t: &Targ) -> (r: Option<&AlpmPkg>) {
        self.at((self.target_satisfier)(t))
    }
}

} // verus!
