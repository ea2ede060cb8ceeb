//! Packages with their metadata, and the bases they are built from.
use std::sync::Arc;
use vstd::prelude::*;
use crate::alpm::AlpmPkg;
use crate::pkg::{AurPkg, Srcinfo, SrcinfoPkg};
use crate::text;

pub mod laws;

verus! {

/// Wrapper around a package for extra metadata.
#[derive(Debug, Clone, PartialEq, Eq)]
pub struct Package<T> {
    /// The underlying package.
    pub pkg: T,
    /// If the package is only needed to build the targets.
    pub make: bool,
    /// If the package is a target.
    pub target: bool,
}

/// Wrapper around an AUR package for extra metadata.
pub type AurPackage = Package<Arc<AurPkg>>;

/// Wrapper around a repo package for extra metadata.
pub type RepoPackage<'a> = Package<&'a AlpmPkg>;

/// Wrapper around a package of a pkgbuild repo for extra metadata.
pub type Pkgbuild<'a> = Package<&'a SrcinfoPkg>;

/// Packages from a pkgbuild repo.
#[derive(Debug, Clone, PartialEq, Eq)]
pub struct PkgbuildPackages<'a> {
    /// The repo the package came from.
    pub repo: String,
    /// The srcinfo of the pkgbase.
    pub srcinfo: &'a Srcinfo,
    /// The pkgs from the srcinfo to install.
    pub pkgs: Vec<Pkgbuild<'a>>,
    /// Should the package be built.
    pub build: bool,
}

/// Describes an AUR package base.
#[derive(Debug, Clone, PartialEq, Eq)]
pub struct AurBase {
    /// List of packages belonging to the package base.
    pub pkgs: Vec<AurPackage>,
    /// Should the package be built.
    pub build: bool,
}

/// A package base.
/// This describes packages that should be built then installed.
#[derive(Debug, Clone, PartialEq, Eq)]
pub enum Base<'a> {
    /// AUR packages.
    Aur(AurBase),
    /// Pkgbuild packages.
    Pkgbuild(PkgbuildPackages<'a>),
}

/// A package base over sequences.
pub enum BaseV<'a> {
    Aur { pkgs: Seq<AurPackage>, build: bool },
    Pkgbuild { repo: Seq<char>, srcinfo: &'a Srcinfo, pkgs: Seq<Pkgbuild<'a>>, build: bool },
}

impl<'a> View for Base<'a> {
    type V = BaseV<'a>;

    open spec fn view(&self) -> BaseV<'a> {
        match *self {
            Base::Aur(b) => BaseV::Aur { pkgs: b.pkgs@, build: b.build },
            Base::Pkgbuild(b) => BaseV::Pkgbuild {
                repo: b.repo@,
                srcinfo: b.srcinfo,
                pkgs: b.pkgs@,
                build: b.build,
            },
        }
    }
}

/// A package that is to be built.
#[derive(Debug, Clone)]
pub enum BuildPkg<'a> {
    /// From the AUR.
    Aur(AurPackage),
    /// From a pkgbuild repo.
    Pkgbuild(&'a Srcinfo, Pkgbuild<'a>),
}

impl<'a> BuildPkg<'a> {
    /// The name of the package.
    pub open spec fn pkgname(self) -> Seq<char> {
        match self {
            BuildPkg::Aur(p) => p.pkg.name@,
            BuildPkg::Pkgbuild(_, p) => p.pkg.pkgname@,
        }
    }

    /// The package is make only.
    pub open spec fn is_make(self) -> bool {
        match self {
            BuildPkg::Aur(p) => p.make,
            BuildPkg::Pkgbuild(_, p) => p.make,
        }
    }

    /// Gets the name of the package.
    pub fn name(&self) -> (r: &String)
        ensures
            r@ == self.pkgname(),
    {
        match self {
            BuildPkg::Aur(p) => &p.pkg.name,
            BuildPkg::Pkgbuild(_, p) => &p.pkg.pkgname,
        }
    }

    /// Is the package make only.
    pub fn make(&self) -> (r: bool)
        ensures
            r == self.is_make(),
    {
        match self {
            BuildPkg::Aur(p) => p.make,
            BuildPkg::Pkgbuild(_, p) => p.make,
        }
    }

    /// Is the package a target.
    pub fn target(&self) -> (r: bool)
        ensures
            r == (match *self {
                BuildPkg::Aur(p) => p.target,
                BuildPkg::Pkgbuild(_, p) => p.target,
            }),
    {
        match self {
            BuildPkg::Aur(p) => p.target,
            BuildPkg::Pkgbuild(_, p) => p.target,
        }
    }
}

/// The packages of a base.
pub open spec fn base_pkgs<'a>() -> spec_fn(BaseV<'a>) -> Seq<BuildPkg<'a>> {
    |b: BaseV<'a>|
        match b {
            BaseV::Aur { pkgs, .. } => pkgs.map_values(|p: AurPackage| BuildPkg::<'a>::Aur(p)),
            BaseV::Pkgbuild { srcinfo, pkgs, .. } => pkgs.map_values(
                |p: Pkgbuild<'a>| BuildPkg::Pkgbuild(srcinfo, p),
            ),
        }
}

/// The bases of a list over sequences.
pub open spec fn bases<'a>(v: Seq<Base<'a>>) -> Seq<BaseV<'a>> {
    v.map_values(|b: Base<'a>| b@)
}

impl<'a> BaseV<'a> {
    /// An AUR base has a package.
    pub open spec fn wf(self) -> bool {
        self matches BaseV::Aur { pkgs, .. } ==> pkgs.len() > 0
    }

    /// The name of the base.
    pub open spec fn name(self) -> Seq<char> {
        match self {
            BaseV::Aur { pkgs, .. } => pkgs[0].pkg.package_base@,
            BaseV::Pkgbuild { srcinfo, .. } => srcinfo.base.pkgbase@,
        }
    }

    /// The version of the base.
    pub open spec fn version(self) -> Seq<char> {
        match self {
            BaseV::Aur { pkgs, .. } => pkgs[0].pkg.version@,
            BaseV::Pkgbuild { srcinfo, .. } => srcinfo.full_version(),
        }
    }

    /// The names of the packages.
    pub open spec fn names(self) -> Seq<Seq<char>> {
        match self {
            BaseV::Aur { pkgs, .. } => pkgs.map_values(|p: AurPackage| p.pkg.name@),
            BaseV::Pkgbuild { pkgs, .. } => pkgs.map_values(|p: Pkgbuild<'a>| p.pkg.pkgname@),
        }
    }

    /// Which of the packages are make only.
    pub open spec fn makes(self) -> Seq<bool> {
        match self {
            BaseV::Aur { pkgs, .. } => pkgs.map_values(|p: AurPackage| p.make),
            BaseV::Pkgbuild { pkgs, .. } => pkgs.map_values(|p: Pkgbuild<'a>| p.make),
        }
    }

    /// Which of the packages are targets.
    pub open spec fn targets(self) -> Seq<bool> {
        match self {
            BaseV::Aur { pkgs, .. } => pkgs.map_values(|p: AurPackage| p.target),
            BaseV::Pkgbuild { pkgs, .. } => pkgs.map_values(|p: Pkgbuild<'a>| p.target),
        }
    }

    /// Is the base to be built.
    pub open spec fn builds(self) -> bool {
        match self {
            BaseV::Aur { build, .. } => build,
            BaseV::Pkgbuild { build, .. } => build,
        }
    }
}

/// Each name after a space.
pub open spec fn spaced(names: Seq<Seq<char>>) -> Seq<char>
    decreases names.len(),
{
    if names.len() == 0 {
        Seq::empty()
    } else {
        spaced(names.drop_last()) + seq![' '] + names.last()
    }
}

/// A base as a string: `pkgname-ver`, or, if there are multiple packages,
/// `pkgbase-ver (pkg1 pkg2 pkg3)`. Without packages there is nothing between the brackets, and no
/// brackets either where the base has no name.
pub open spec fn base_text(pkgbase: Seq<char>, ver: Seq<char>, pkgs: Seq<Seq<char>>) -> Seq<char> {
    if pkgs.len() == 1 {
        pkgs[0] + seq!['-'] + ver
    } else if pkgs.len() > 1 {
        pkgbase + seq!['-'] + ver + seq![' ', '('] + pkgs[0] + spaced(pkgs.drop_first()) + seq![')']
    } else if pkgbase.len() > 0 {
        pkgbase + seq!['-'] + ver + seq![' ', '(', ')']
    } else {
        seq!['-'] + ver
    }
}

impl AurBase {
    /// Gets the package base of base.
    pub fn package_base(&self) -> (r: &String)
        requires
            self.pkgs@.len() > 0,
        ensures
            r@ == self.pkgs@[0].pkg.package_base@,
    {
        &self.pkgs[0].pkg.package_base
    }

    /// Gets the version of base.
    pub fn version(&self) -> (r: String)
        requires
            self.pkgs@.len() > 0,
        ensures
            r@ == self.pkgs@[0].pkg.version@,
    {
        self.pkgs[0].pkg.version.clone()
    }

    /// The base as a string.
    pub fn text(&self) -> (r: String)
        requires
            self.pkgs@.len() > 0,
        ensures
            r@ == base_text(
                self.pkgs@[0].pkg.package_base@,
                self.pkgs@[0].pkg.version@,
                self.pkgs@.map_values(|p: AurPackage| p.pkg.name@),
            ),
    {
        let mut names: Vec<String> = Vec::new();
        let mut i: usize = 0;
        while i < self.pkgs.len()
            invariant
                i <= self.pkgs.len(),
                names.len() == i,
                forall|j: int| 0 <= j < i ==> #[trigger] names@[j]@ == self.pkgs@[j].pkg.name@,
            decreases self.pkgs.len() - i,
        {
            names.push(self.pkgs[i].pkg.name.clone());
            i = i + 1;
        }
        proof {
            assert(text::strs(names@) =~= self.pkgs@.map_values(|p: AurPackage| p.pkg.name@));
        }
        Base::write_base(self.package_base(), &self.version(), &names)
    }
}

impl<'a> PkgbuildPackages<'a> {
    /// Gets the package base of base.
    pub fn package_base(&self) -> (r: &'a String)
        ensures
            r@ == self.srcinfo.base.pkgbase@,
    {
        &self.srcinfo.base.pkgbase
    }

    /// Gets the version of base.
    pub fn version(&self) -> (r: String)
        ensures
            r@ == self.srcinfo.full_version(),
    {
        self.srcinfo.version()
    }

    /// The base as a string.
    pub fn text(&self) -> (r: String)
        ensures
            r@ == base_text(
                self.srcinfo.base.pkgbase@,
                self.srcinfo.full_version(),
                self.pkgs@.map_values(|p: Pkgbuild<'a>| p.pkg.pkgname@),
            ),
    {
        let mut names: Vec<String> = Vec::new();
        let mut i: usize = 0;
        while i < self.pkgs.len()
            invariant
                i <= self.pkgs.len(),
                names.len() == i,
                forall|j: int| 0 <= j < i ==> #[trigger] names@[j]@ == self.pkgs@[j].pkg.pkgname@,
            decreases self.pkgs.len() - i,
        {
            names.push(self.pkgs[i].pkg.pkgname.clone());
            i = i + 1;
        }
        proof {
            assert(text::strs(names@) =~= self.pkgs@.map_values(|p: Pkgbuild<'a>| p.pkg.pkgname@));
        }
        Base::write_base(self.package_base(), &self.version(), &names)
    }
}

impl<'a> Base<'a> {
    /// Gets the package base of base.
    pub fn package_base(&self) -> (r: &String)
        requires
            self@.wf(),
        ensures
            r@ == self@.name(),
    {
        match self {
            Base::Aur(base) => base.package_base(),
            Base::Pkgbuild(base) => base.package_base(),
        }
    }

    /// Gets the version of base.
    pub fn version(&self) -> (r: String)
        requires
            self@.wf(),
        ensures
            r@ == self@.version(),
    {
        match self {
            Base::Aur(base) => base.version(),
            Base::Pkgbuild(base) => base.version(),
        }
    }

    /// Amount of packages in this base.
    pub fn package_count(&self) -> (r: usize)
        ensures
            r == self@.names().len(),
    {
        match self {
            Base::Aur(base) => base.pkgs.len(),
            Base::Pkgbuild(base) => base.pkgs.len(),
        }
    }

    /// The package names in this base.
    pub fn packages(&self) -> (r: Vec<String>)
        ensures
            text::strs(r@) == self@.names(),
    {
        let mut r: Vec<String> = Vec::new();
        let mut i: usize = 0;
        match self {
            Base::Aur(base) => {
                while i < base.pkgs.len()
                    invariant
                        i <= base.pkgs.len(),
                        r.len() == i,
                        forall|j: int| 0 <= j < i ==> #[trigger] r@[j]@ == base.pkgs@[j].pkg.name@,
                    decreases base.pkgs.len() - i,
                {
                    r.push(base.pkgs[i].pkg.name.clone());
                    i = i + 1;
                }
            },
            Base::Pkgbuild(base) => {
                while i < base.pkgs.len()
                    invariant
                        i <= base.pkgs.len(),
                        r.len() == i,
                        forall|j: int|
                            0 <= j < i ==> #[trigger] r@[j]@ == base.pkgs@[j].pkg.pkgname@,
                    decreases base.pkgs.len() - i,
                {
                    r.push(base.pkgs[i].pkg.pkgname.clone());
                    i = i + 1;
                }
            },
        }
        proof {
            assert(text::strs(r@) =~= self@.names());
        }
        r
    }

    /// Are any packages in this base make only.
    pub fn make(&self) -> (r: bool)
        ensures
            r == self@.makes().contains(true),
    {
        let mut i: usize = 0;
        match self {
            Base::Aur(base) => {
                while i < base.pkgs.len()
                    invariant
                        *self == Base::Aur(*base),
                        i <= base.pkgs.len(),
                        forall|j: int| 0 <= j < i ==> !#[trigger] self@.makes()[j],
                    decreases base.pkgs.len() - i,
                {
                    if base.pkgs[i].make {
                        assert(self@.makes()[i as int]);
                        return true;
                    }
                    i = i + 1;
                }
            },
            Base::Pkgbuild(base) => {
                while i < base.pkgs.len()
                    invariant
                        *self == Base::Pkgbuild(*base),
                        i <= base.pkgs.len(),
                        forall|j: int| 0 <= j < i ==> !#[trigger] self@.makes()[j],
                    decreases base.pkgs.len() - i,
                {
                    if base.pkgs[i].make {
                        assert(self@.makes()[i as int]);
                        return true;
                    }
                    i = i + 1;
                }
            },
        }
        false
    }

    /// Are any packages in this base targets.
    pub fn target(&self) -> (r: bool)
        ensures
            r == self@.targets().contains(true),
    {
        let mut i: usize = 0;
        match self {
            Base::Aur(base) => {
                while i < base.pkgs.len()
                    invariant
                        *self == Base::Aur(*base),
                        i <= base.pkgs.len(),
                        forall|j: int| 0 <= j < i ==> !#[trigger] self@.targets()[j],
                    decreases base.pkgs.len() - i,
                {
                    if base.pkgs[i].target {
                        assert(self@.targets()[i as int]);
                        return true;
                    }
                    i = i + 1;
                }
            },
            Base::Pkgbuild(base) => {
                while i < base.pkgs.len()
                    invariant
                        *self == Base::Pkgbuild(*base),
                        i <= base.pkgs.len(),
                        forall|j: int| 0 <= j < i ==> !#[trigger] self@.targets()[j],
                    decreases base.pkgs.len() - i,
                {
                    if base.pkgs[i].target {
                        assert(self@.targets()[i as int]);
                        return true;
                    }
                    i = i + 1;
                }
            },
        }
        false
    }

    /// Should the packages be built.
    pub fn build(&self) -> (r: bool)
        ensures
            r == self@.builds(),
    {
        match self {
            Base::Aur(base) => base.build,
            Base::Pkgbuild(base) => base.build,
        }
    }

    /// Formats a base into the format:
    /// pkgname-ver
    /// or, if there are multiple packages:
    /// pkgbase-ver (pkg1 pkg2 pkg2)
    pub fn write_base(pkgbase: &String, ver: &String, pkgs: &Vec<String>) -> (r: String)
        ensures
            r@ == base_text(pkgbase@, ver@, text::strs(pkgs@)),
    {
        proof {
            reveal_strlit("-");
            reveal_strlit(" (");
            reveal_strlit(" ");
            reveal_strlit(")");
            assert("-"@ =~= seq!['-']);
            assert(" ("@ =~= seq![' ', '(']);
            assert(" "@ =~= seq![' ']);
            assert(")"@ =~= seq![')']);
        }
        let ghost names = text::strs(pkgs@);
        if pkgs.len() == 1 {
            return pkgs[0].clone().concat("-").concat(ver.as_str());
        }
        let mut r = pkgbase.clone().concat("-").concat(ver.as_str());
        if pkgs.len() == 0 {
            if pkgbase.as_str().is_empty() {
                proof {
                    assert(r@ =~= seq!['-'] + ver@);
                }
                return r;
            }
            r.append(" (");
            proof {
                assert(r@ + seq![')'] =~= base_text(pkgbase@, ver@, names));
            }
        } else {
            r.append(" (");
            r.append(pkgs[0].as_str());
            let ghost head = r@;
            let ghost rest = names.drop_first();
            let mut i: usize = 1;
            proof {
                assert(head + spaced(rest.take(0)) =~= head);
            }
            while i < pkgs.len()
                invariant
                    names == text::strs(pkgs@),
                    rest == names.drop_first(),
                    1 <= i <= pkgs.len(),
                    " "@ == seq![' '],
                    r@ == head + spaced(rest.take(i - 1)),
                decreases pkgs.len() - i,
            {
                r.append(" ");
                r.append(pkgs[i].as_str());
                proof {
                    assert(rest.take(i as int).drop_last() =~= rest.take(i - 1));
                    assert(rest.take(i as int).last() == pkgs@[i as int]@);
                    assert(r@ =~= head + spaced(rest.take(i as int)));
                }
                i = i + 1;
            }
            proof {
                assert(rest.take(i - 1) =~= rest);
            }
        }
        r.append(")");
        r
    }

    /// True if the package base contains a single package
    /// with the same name as the pkgbase.
    pub fn base_is_pkg(pkgbase: &String, pkgs: &Vec<String>) -> (r: bool)
        ensures
            r == (pkgs@.len() == 1 && pkgs@[0]@ == pkgbase@),
    {
        pkgs.len() == 1 && pkgs[0] == *pkgbase
    }

    /// The packages of the base.
    pub fn build_pkgs(&self) -> (r: Vec<BuildPkg<'a>>)
        ensures
            r@ == base_pkgs()(self@),
    {
        let mut r: Vec<BuildPkg<'a>> = Vec::new();
        let mut i: usize = 0;
        match self {
            Base::Aur(base) => {
                while i < base.pkgs.len()
                    invariant
                        i <= base.pkgs.len(),
                        r.len() == i,
                        forall|j: int|
                            0 <= j < i ==> #[trigger] r@[j] == BuildPkg::<'a>::Aur(base.pkgs@[j]),
                    decreases base.pkgs.len() - i,
                {
                    let p = &base.pkgs[i];
                    r.push(
                        BuildPkg::Aur(
                            Package { pkg: p.pkg.clone(), make: p.make, target: p.target },
                        ),
                    );
                    i = i + 1;
                }
            },
            Base::Pkgbuild(base) => {
                while i < base.pkgs.len()
                    invariant
                        i <= base.pkgs.len(),
                        r.len() == i,
                        forall|j: int|
                            0 <= j < i ==> #[trigger] r@[j] == BuildPkg::Pkgbuild(
                                base.srcinfo,
                                base.pkgs@[j],
                            ),
                    decreases base.pkgs.len() - i,
                {
                    let p = &base.pkgs[i];
                    r.push(
                        BuildPkg::Pkgbuild(
                            base.srcinfo,
                            Package { pkg: p.pkg, make: p.make, target: p.target },
                        ),
                    );
                    i = i + 1;
                }
            },
        }
        proof {
            assert(r@ =~= base_pkgs()(self@));
        }
        r
    }

    /// The base as a string.
    pub fn text(&self) -> (r: String)
        requires
            self@.wf(),
        ensures
            r@ == base_text(self@.name(), self@.version(), self@.names()),
    {
        match self {
            Base::Aur(base) => base.text(),
            Base::Pkgbuild(base) => base.text(),
        }
    }
}

} // verus!
