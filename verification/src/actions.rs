//! What is to be done to install the targets.
use vstd::prelude::*;
use crate::base::{Base, RepoPackage};

verus! {

/// A step on the path to a missing dependency.
#[derive(Debug, Clone, PartialEq, Eq)]
pub struct DepMissing {
    /// The package that was to satisfy the dependency.
    pub pkg: String,
    /// The dependency.
    pub dep: String,
}

/// A step on the path to a missing dependency over characters.
#[verifier::ext_equal]
pub struct DepMissingV {
    pub pkg: Seq<char>,
    pub dep: Seq<char>,
}

/// A package that could not be resolved.
#[derive(Debug, Clone, PartialEq, Eq)]
pub struct Missing {
    /// The dependency we failed to satisfy.
    pub dep: String,
    /// The dependency path leading to pkg.
    pub stack: Vec<DepMissing>,
}

/// A package that could not be resolved over characters.
#[verifier::ext_equal]
pub struct MissingV {
    pub dep: Seq<char>,
    pub stack: Seq<DepMissingV>,
}

/// Information about an up to date package.
#[derive(Debug, Clone, PartialEq, Eq, PartialOrd, Ord, Hash)]
pub struct Unneeded {
    /// Package name.
    pub name: String,
    /// Package version.
    pub version: String,
}

/// Information about an up to date package over characters.
#[verifier::ext_equal]
pub struct UnneededV {
    pub name: Seq<char>,
    pub version: Seq<char>,
}

/// The response from resolving dependencies.
///
/// Note that just because resolving came to an end does not mean it is safe to blindly start
/// installing these packages.
#[derive(Debug)]
pub struct Actions<'a, A> {
    /// What the databases are asked through.
    pub alpm: &'a A,
    /// Some of the targets or dependencies could not be satisfied. This should be treated as
    /// a hard error.
    pub missing: Vec<Missing>,
    /// Targets that are up to date.
    pub unneeded: Vec<Unneeded>,
    /// Packages to build.
    pub build: Vec<Base<'a>>,
    /// Repo packages to install.
    pub install: Vec<RepoPackage<'a>>,
}

impl View for DepMissing {
    type V = DepMissingV;

    open spec fn view(&self) -> DepMissingV {
        DepMissingV { pkg: self.pkg@, dep: self.dep@ }
    }
}

/// A path over characters.
pub open spec fn steps(v: Seq<DepMissing>) -> Seq<DepMissingV> {
    v.map_values(|d: DepMissing| d@)
}

impl View for Missing {
    type V = MissingV;

    open spec fn view(&self) -> MissingV {
        MissingV { dep: self.dep@, stack: steps(self.stack@) }
    }
}

/// The missing packages of a list over characters.
pub open spec fn missings(v: Seq<Missing>) -> Seq<MissingV> {
    v.map_values(|m: Missing| m@)
}

impl View for Unneeded {
    type V = UnneededV;

    open spec fn view(&self) -> UnneededV {
        UnneededV { name: self.name@, version: self.version@ }
    }
}

/// The up to date packages of a list over characters.
pub open spec fn unneededs(v: Seq<Unneeded>) -> Seq<UnneededV> {
    v.map_values(|u: Unneeded| u@)
}

impl DepMissing {
    /// Create a new step.
    pub fn new(pkg: String, dep: String) -> (r: Self)
        ensures
            r@ == (DepMissingV { pkg: pkg@, dep: dep@ }),
    {
        DepMissing { pkg, dep }
    }

    /// A copy of the step.
    pub fn copy(&self) -> (r: Self)
        ensures
            r@ == self@,
    {
        DepMissing { pkg: self.pkg.clone(), dep: self.dep.clone() }
    }
}

/// A copy of a path.
pub fn copy_steps(v: &Vec<DepMissing>) -> (r: Vec<DepMissing>)
    ensures
        steps(r@) == steps(v@),
{
    let mut r: Vec<DepMissing> = Vec::new();
    let mut i: usize = 0;
    while i < v.len()
        invariant
            i <= v.len(),
            r.len() == i,
            forall|j: int| 0 <= j < i ==> #[trigger] r@[j]@ == v@[j]@,
        decreases v.len() - i,
    {
        r.push(v[i].copy());
        i = i + 1;
    }
    proof {
        assert(steps(r@) =~= steps(v@));
    }
    r
}

impl Unneeded {
    /// Create a new Unneeded.
    pub fn new(name: String, version: String) -> (r: Self)
        ensures
            r@ == (UnneededV { name: name@, version: version@ }),
    {
        Unneeded { name, version }
    }
}

} // verus!
