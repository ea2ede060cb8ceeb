//! When a package satisfies a dependency.
use vstd::prelude::*;
use crate::alpm::{Alpm, AlpmModel, AlpmPkg};
use crate::depend;
use crate::depend::{DepModVer, DepModVerV, Depend, DependV, VerOrder};
use crate::pkg;
use crate::pkg::{AurPkg, Srcinfo, SrcinfoPkg};
use crate::text;

pub mod laws;

verus! {

/// `version` meets the constraint of `dep`. A constraint on the exact version is also met by a
/// version that equals it up to the release number.
pub open spec fn ver_ok(m: AlpmModel, dep: DependV, version: Seq<char>) -> bool {
    match dep.depmodver {
        DepModVerV::Any => true,
        DepModVerV::Eq(v) => (m.vercmp)(version, v) == VerOrder::Equal || text::before_dash(
            version,
        ) == v,
        DepModVerV::Ge(v) => (m.vercmp)(version, v) != VerOrder::Less,
        DepModVerV::Le(v) => (m.vercmp)(version, v) != VerOrder::Greater,
        DepModVerV::Gt(v) => (m.vercmp)(version, v) == VerOrder::Greater,
        DepModVerV::Lt(v) => (m.vercmp)(version, v) == VerOrder::Less,
    }
}

/// The version that a provide states, None where it states none.
pub open spec fn provided_version(provide: DependV) -> Option<Seq<char>> {
    match provide.depmodver {
        DepModVerV::Any => None,
        DepModVerV::Eq(v) => Some(v),
        DepModVerV::Ge(v) => Some(v),
        DepModVerV::Le(v) => Some(v),
        DepModVerV::Gt(v) => Some(v),
        DepModVerV::Lt(v) => Some(v),
    }
}

/// `dep` is met by `provide`.
pub open spec fn provide_ok(m: AlpmModel, dep: DependV, provide: DependV, nover: bool) -> bool {
    dep.name == provide.name && (nover || match provided_version(provide) {
        Some(v) => ver_ok(m, dep, v),
        None => dep.depmodver is Any,
    })
}

/// `dep` is met by a package with that name, version and provides.
pub open spec fn dep_ok(
    m: AlpmModel,
    dep: DependV,
    name: Seq<char>,
    version: Seq<char>,
    provides: Seq<DependV>,
    nover: bool,
) -> bool {
    ||| dep.name == name && (nover || ver_ok(m, dep, version))
    ||| exists|i: int| 0 <= i < provides.len() && #[trigger] provide_ok(m, dep, provides[i], nover)
}

/// The dependencies that a list of strings stands for.
pub open spec fn parsed(m: AlpmModel, v: Seq<Seq<char>>) -> Seq<DependV> {
    v.map_values(|s: Seq<char>| (m.depend)(s))
}

/// `dep` is met by the AUR package.
pub open spec fn aur_ok(m: AlpmModel, p: AurPkg, dep: DependV, nover: bool) -> bool {
    dep_ok(m, dep, p.name@, p.version@, parsed(m, text::strs(p.provides@)), nover)
}

/// `dep` is met by the package of a database.
pub open spec fn alpm_ok(m: AlpmModel, p: AlpmPkg, dep: DependV, nover: bool) -> bool {
    dep_ok(m, dep, p.name@, p.version@, depend::deps(p.provides@), nover)
}

/// `dep` is met by the package of a .SRCINFO.
pub open spec fn srcinfo_ok(
    m: AlpmModel,
    s: Srcinfo,
    p: SrcinfoPkg,
    dep: DependV,
    nover: bool,
) -> bool {
    dep_ok(m, dep, p.pkgname@, s.full_version(), parsed(m, pkg::values(p.provides@)), nover)
}

/// The position of the first package of a .SRCINFO that meets `dep`, the number of packages where
/// none does.
pub open spec fn srcinfo_index(
    m: AlpmModel,
    s: Srcinfo,
    pkgs: Seq<SrcinfoPkg>,
    dep: DependV,
    nover: bool,
) -> int
    decreases pkgs.len(),
{
    if pkgs.len() == 0 || srcinfo_ok(m, s, pkgs[0], dep, nover) {
        0
    } else {
        1 + srcinfo_index(m, s, pkgs.drop_first(), dep, nover)
    }
}

/// The position is in range or the number of packages.
pub proof fn lemma_srcinfo_index(
    m: AlpmModel,
    s: Srcinfo,
    pkgs: Seq<SrcinfoPkg>,
    dep: DependV,
    nover: bool,
)
    ensures
        0 <= srcinfo_index(m, s, pkgs, dep, nover) <= pkgs.len(),
    decreases pkgs.len(),
{
    if pkgs.len() > 0 {
        lemma_srcinfo_index(m, s, pkgs.drop_first(), dep, nover);
    }
}

/// Does `version` meet the constraint of `dep`.
fn satisfies_ver<A: Alpm>(alpm: &A, dep: &Depend, version: &String) -> (r: bool)
    requires
        alpm.wf(),
    ensures
        r == ver_ok(alpm.model(), dep@, version@),
{
    match &dep.depmodver {
        DepModVer::Any => true,
        DepModVer::Eq(v) => alpm.vercmp(version.as_str(), v.as_str()) == VerOrder::Equal
            || text::until_dash(version.as_str()) == *v,
        DepModVer::Ge(v) => alpm.vercmp(version.as_str(), v.as_str()) != VerOrder::Less,
        DepModVer::Le(v) => alpm.vercmp(version.as_str(), v.as_str()) != VerOrder::Greater,
        DepModVer::Gt(v) => alpm.vercmp(version.as_str(), v.as_str()) == VerOrder::Greater,
        DepModVer::Lt(v) => alpm.vercmp(version.as_str(), v.as_str()) == VerOrder::Less,
    }
}

/// Is `dep` met by `provide`. With `nover` the version constraint is ignored.
pub fn satisfies_provide<A: Alpm>(alpm: &A, dep: &Depend, provide: &Depend, nover: bool) -> (r: bool)
    requires
        alpm.wf(),
    ensures
        r == provide_ok(alpm.model(), dep@, provide@, nover),
{
    if dep.name != provide.name {
        false
    } else if nover {
        true
    } else {
        match &provide.depmodver {
            DepModVer::Any => dep.depmodver.is_any(),
            DepModVer::Eq(v) => satisfies_ver(alpm, dep, v),
            DepModVer::Ge(v) => satisfies_ver(alpm, dep, v),
            DepModVer::Le(v) => satisfies_ver(alpm, dep, v),
            DepModVer::Gt(v) => satisfies_ver(alpm, dep, v),
            DepModVer::Lt(v) => satisfies_ver(alpm, dep, v),
        }
    }
}

/// Is `dep` met by a package with that name, version and provides. With `nover` the version
/// constraint is ignored.
pub fn satisfies<A: Alpm>(
    alpm: &A,
    dep: &Depend,
    name: &String,
    version: &String,
    provides: &Vec<Depend>,
    nover: bool,
) -> (r: bool)
    requires
        alpm.wf(),
    ensures
        r == dep_ok(alpm.model(), dep@, name@, version@, depend::deps(provides@), nover),
{
    if dep.name == *name && (nover || satisfies_ver(alpm, dep, version)) {
        return true;
    }
    let mut i: usize = 0;
    while i < provides.len()
        invariant
            alpm.wf(),
            i <= provides.len(),
            forall|j: int|
                0 <= j < i ==> !#[trigger] provide_ok(
                    alpm.model(),
                    dep@,
                    depend::deps(provides@)[j],
                    nover,
                ),
        decreases provides.len() - i,
    {
        if satisfies_provide(alpm, dep, &provides[i], nover) {
            proof {
                assert(provide_ok(alpm.model(), dep@, depend::deps(provides@)[i as int], nover));
            }
            return true;
        }
        i = i + 1;
    }
    false
}

/// The dependencies that a list of strings stands for.
pub fn parse_all<A: Alpm>(alpm: &A, v: &Vec<String>) -> (r: Vec<Depend>)
    requires
        alpm.wf(),
    ensures
        depend::deps(r@) == parsed(alpm.model(), text::strs(v@)),
{
    let mut r: Vec<Depend> = Vec::new();
    let mut i: usize = 0;
    while i < v.len()
        invariant
            alpm.wf(),
            i <= v.len(),
            r.len() == i,
            forall|j: int| 0 <= j < i ==> #[trigger] r@[j]@ == (alpm.model().depend)(v@[j]@),
        decreases v.len() - i,
    {
        r.push(alpm.depend(v[i].as_str()));
        i = i + 1;
    }
    proof {
        assert(depend::deps(r@) =~= parsed(alpm.model(), text::strs(v@)));
    }
    r
}

/// What can satisfy a dependency.
pub trait Satisfies {
    /// The name of the package that meets `dep`.
    spec fn which(&self, m: AlpmModel, dep: DependV, nover: bool) -> Option<Seq<char>>;

    /// Is `dep` met.
    fn satisfies_dep<A: Alpm>(&self, alpm: &A, dep: &Depend, nover: bool) -> (r: bool)
        requires
            alpm.wf(),
        ensures
            r == (self.which(alpm.model(), dep@, nover) is Some),
    {
        self.which_satisfies_dep(alpm, dep, nover).is_some()
    }

    /// The name of the package that meets `dep`.
    fn which_satisfies_dep<A: Alpm>(&self, alpm: &A, dep: &Depend, nover: bool) -> (r: Option<&String>)
        requires
            alpm.wf(),
        ensures
            r matches Some(s) ==> self.which(alpm.model(), dep@, nover) == Some(s@),
            r is None ==> self.which(alpm.model(), dep@, nover) is None,
    ;
}

impl Satisfies for AurPkg {
    open spec fn which(&self, m: AlpmModel, dep: DependV, nover: bool) -> Option<Seq<char>> {
        if aur_ok(m, *self, dep, nover) {
            Some(self.name@)
        } else {
            None
        }
    }

    fn which_satisfies_dep<A: Alpm>(&self, alpm: &A, dep: &Depend, nover: bool) -> (r: Option<&String>) {
        let provides = parse_all(alpm, &self.provides);
        if satisfies(alpm, dep, &self.name, &self.version, &provides, nover) {
            Some(&self.name)
        } else {
            None
        }
    }
}

impl Satisfies for AlpmPkg {
    open spec fn which(&self, m: AlpmModel, dep: DependV, nover: bool) -> Option<Seq<char>> {
        if alpm_ok(m, *self, dep, nover) {
            Some(self.name@)
        } else {
            None
        }
    }

    fn which_satisfies_dep<A: Alpm>(&self, alpm: &A, dep: &Depend, nover: bool) -> (r: Option<&String>) {
        if satisfies(alpm, dep, &self.name, &self.version, &self.provides, nover) {
            Some(&self.name)
        } else {
            None
        }
    }
}

impl<'a> Satisfies for (&'a Srcinfo, &'a SrcinfoPkg) {
    open spec fn which(&self, m: AlpmModel, dep: DependV, nover: bool) -> Option<Seq<char>> {
        if srcinfo_ok(m, *self.0, *self.1, dep, nover) {
            Some(self.1.pkgname@)
        } else {
            None
        }
    }

    fn which_satisfies_dep<A: Alpm>(&self, alpm: &A, dep: &Depend, nover: bool) -> (r: Option<&String>) {
        let values = pkg::all_values(&self.1.provides);
        let provides = parse_all(alpm, &values);
        let version = self.0.version();
        if satisfies(alpm, dep, &self.1.pkgname, &version, &provides, nover) {
            Some(&self.1.pkgname)
        } else {
            None
        }
    }
}

impl Satisfies for Srcinfo {
    open spec fn which(&self, m: AlpmModel, dep: DependV, nover: bool) -> Option<Seq<char>> {
        let i = srcinfo_index(m, *self, self.pkgs@, dep, nover);
        if i < self.pkgs@.len() {
            Some(self.pkgs@[i].pkgname@)
        } else {
            None
        }
    }

    fn which_satisfies_dep<A: Alpm>(&self, alpm: &A, dep: &Depend, nover: bool) -> (r: Option<&String>) {
        let mut i: usize = 0;
        proof {
            assert(self.pkgs@.skip(0) =~= self.pkgs@);
        }
        while i < self.pkgs.len()
            invariant
                alpm.wf(),
                i <= self.pkgs.len(),
                srcinfo_index(alpm.model(), *self, self.pkgs@, dep@, nover) == i + srcinfo_index(
                    alpm.model(),
                    *self,
                    self.pkgs@.skip(i as int),
                    dep@,
                    nover,
                ),
            decreases self.pkgs.len() - i,
        {
            proof {
                assert(self.pkgs@.skip(i as int).drop_first() =~= self.pkgs@.skip(i + 1));
            }
            if (self, &self.pkgs[i]).satisfies_dep(alpm, dep, nover) {
                return Some(&self.pkgs[i].pkgname);
            }
            i = i + 1;
        }
        None
    }
}

/// What meets a dependency also meets it where version constraints are ignored.
pub proof fn lemma_nover_weaker(
    m: AlpmModel,
    dep: DependV,
    name: Seq<char>,
    version: Seq<char>,
    provides: Seq<DependV>,
)
    requires
        dep_ok(m, dep, name, version, provides, false),
    ensures
        dep_ok(m, dep, name, version, provides, true),
{
    if dep.name != name {
        let i = choose|i: int|
            0 <= i < provides.len() && #[trigger] provide_ok(m, dep, provides[i], false);
        assert(provide_ok(m, dep, provides[i], true));
    }
}

/// A package meets a dependency on its name that has no version constraint.
pub proof fn lemma_name_suffices(
    m: AlpmModel,
    dep: DependV,
    version: Seq<char>,
    provides: Seq<DependV>,
    nover: bool,
)
    requires
        dep.depmodver is Any,
    ensures
        dep_ok(m, dep, dep.name, version, provides, nover),
{
}

/// A provide without a version does not meet a dependency with a version constraint.
pub proof fn lemma_unversioned_provide(m: AlpmModel, dep: DependV, provide: DependV)
    requires
        provide.depmodver is Any,
        !(dep.depmodver is Any),
    ensures
        !provide_ok(m, dep, provide, false),
{
}

} // verus!
