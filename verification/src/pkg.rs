//! The packages of the AUR and of PKGBUILD repos.
use vstd::prelude::*;
use crate::text;

verus! {

/// The info the AUR gives of a package.
#[derive(Debug, Clone, PartialEq, Eq)]
pub struct AurPkg {
    /// The name of the package.
    pub name: String,
    /// The base the package is built from.
    pub package_base: String,
    /// The package version.
    pub version: String,
    /// The dependencies of the package itself.
    pub depends: Vec<String>,
    /// The dependencies that are only relevant while the package is being built.
    pub make_depends: Vec<String>,
    /// Dependencies needed for the 'check' stage.
    pub check_depends: Vec<String>,
    /// What the package provides.
    pub provides: Vec<String>,
    /// What the package conflicts with.
    pub conflicts: Vec<String>,
}

/// The values of a field, possibly for one architecture only.
#[derive(Debug, Clone, PartialEq, Eq)]
pub struct ArchVec {
    /// The architecture of the field, None is equivalent to 'any'.
    pub arch: Option<String>,
    /// The values of the field.
    pub vec: Vec<String>,
}

/// The fields from a .SRCINFO that only apply to the pkgbase.
#[derive(Debug, Clone, PartialEq, Eq)]
pub struct SrcinfoBase {
    /// The name of the base.
    pub pkgbase: String,
    /// Upstream version.
    pub pkgver: String,
    /// Release number.
    pub pkgrel: String,
    /// Epoch.
    pub epoch: Option<String>,
    /// The dependencies that are only relevant while the base is being built.
    pub makedepends: Vec<ArchVec>,
    /// Dependencies needed for the 'check' stage.
    pub checkdepends: Vec<ArchVec>,
}

/// The fields from a .SRCINFO that are unique to each package.
#[derive(Debug, Clone, PartialEq, Eq)]
pub struct SrcinfoPkg {
    /// The name of the package.
    pub pkgname: String,
    /// The dependencies of the package.
    pub depends: Vec<ArchVec>,
    /// What the package provides.
    pub provides: Vec<ArchVec>,
    /// What the package conflicts with.
    pub conflicts: Vec<ArchVec>,
}

/// A .SRCINFO file.
#[derive(Debug, Clone, PartialEq, Eq)]
pub struct Srcinfo {
    /// Fields belonging to the pkgbase.
    pub base: SrcinfoBase,
    /// The packages this .SRCINFO contains.
    pub pkgs: Vec<SrcinfoPkg>,
}

/// A pkgbuild repo.
pub struct PkgbuildRepo<'a> {
    /// Name of the repo.
    pub name: String,
    /// Packages in the repo.
    pub pkgs: Vec<&'a Srcinfo>,
}

/// The field applies under the architecture.
pub open spec fn supports(v: ArchVec, arch: Option<Seq<char>>) -> bool {
    v.arch is None || text::opt_str(v.arch) == arch
}

/// The values that apply under the architecture, in order.
pub open spec fn active(vs: Seq<ArchVec>, arch: Option<Seq<char>>) -> Seq<Seq<char>>
    decreases vs.len(),
{
    if vs.len() == 0 {
        Seq::empty()
    } else {
        (if supports(vs[0], arch) {
            text::strs(vs[0].vec@)
        } else {
            Seq::empty()
        }) + active(vs.drop_first(), arch)
    }
}

/// All the values, in order.
pub open spec fn values(vs: Seq<ArchVec>) -> Seq<Seq<char>>
    decreases vs.len(),
{
    if vs.len() == 0 {
        Seq::empty()
    } else {
        text::strs(vs[0].vec@) + values(vs.drop_first())
    }
}

/// Appends a copy of `from` to `to`.
pub fn extend_names(to: &mut Vec<String>, from: &Vec<String>)
    ensures
        text::strs(final(to)@) == text::strs(old(to)@) + text::strs(from@),
{
    let mut copy = text::copy_names(from);
    proof {
        assert(text::strs(to@ + copy@) =~= text::strs(to@) + text::strs(copy@));
    }
    to.append(&mut copy);
}

impl ArchVec {
    /// Does the field apply under the architecture.
    pub fn supported(&self, arch: Option<&String>) -> (r: bool)
        ensures
            r == supports(*self, match arch {
                Some(a) => Some(a@),
                None => None,
            }),
    {
        match &self.arch {
            None => true,
            Some(a) => match arch {
                Some(b) => *a == *b,
                None => false,
            },
        }
    }
}

/// The values that apply under the architecture, in order.
pub fn active_values(vs: &Vec<ArchVec>, arch: Option<&String>) -> (r: Vec<String>)
    ensures
        text::strs(r@) == active(vs@, match arch {
            Some(a) => Some(a@),
            None => None,
        }),
{
    let ghost garch = match arch {
        Some(a) => Some(a@),
        None => None,
    };
    let mut r: Vec<String> = Vec::new();
    let mut i: usize = 0;
    proof {
        assert(vs@.skip(0) =~= vs@);
        assert(text::strs(r@) + active(vs@, garch) =~= active(vs@, garch));
    }
    while i < vs.len()
        invariant
            i <= vs.len(),
            garch == (match arch {
                Some(a) => Some(a@),
                None => None,
            }),
            text::strs(r@) + active(vs@.skip(i as int), garch) == active(vs@, garch),
        decreases vs.len() - i,
    {
        let ghost before = text::strs(r@);
        proof {
            assert(vs@.skip(i as int).drop_first() =~= vs@.skip(i + 1));
        }
        if vs[i].supported(arch) {
            extend_names(&mut r, &vs[i].vec);
        }
        proof {
            assert(before + active(vs@.skip(i as int), garch) =~= text::strs(r@) + active(
                vs@.skip(i + 1),
                garch,
            ));
        }
        i = i + 1;
    }
    proof {
        assert(text::strs(r@) + active(vs@.skip(i as int), garch) =~= text::strs(r@));
    }
    r
}

/// All the values, in order.
pub fn all_values(vs: &Vec<ArchVec>) -> (r: Vec<String>)
    ensures
        text::strs(r@) == values(vs@),
{
    let mut r: Vec<String> = Vec::new();
    let mut i: usize = 0;
    proof {
        assert(vs@.skip(0) =~= vs@);
        assert(text::strs(r@) + values(vs@) =~= values(vs@));
    }
    while i < vs.len()
        invariant
            i <= vs.len(),
            text::strs(r@) + values(vs@.skip(i as int)) == values(vs@),
        decreases vs.len() - i,
    {
        let ghost before = text::strs(r@);
        proof {
            assert(vs@.skip(i as int).drop_first() =~= vs@.skip(i + 1));
        }
        extend_names(&mut r, &vs[i].vec);
        proof {
            assert(before + values(vs@.skip(i as int)) =~= text::strs(r@) + values(vs@.skip(i + 1)));
        }
        i = i + 1;
    }
    proof {
        assert(text::strs(r@) + values(vs@.skip(i as int)) =~= text::strs(r@));
    }
    r
}

impl Srcinfo {
    /// The complete version: `epoch:pkgver-pkgrel`, or `pkgver-pkgrel` where there is no epoch.
    pub open spec fn full_version(self) -> Seq<char> {
        match self.base.epoch {
            Some(epoch) => epoch@ + seq![':'] + self.base.pkgver@ + seq!['-'] + self.base.pkgrel@,
            None => self.base.pkgver@ + seq!['-'] + self.base.pkgrel@,
        }
    }

    /// Builds the complete version string.
    pub fn version(&self) -> (r: String)
        ensures
            r@ == self.full_version(),
    {
        proof {
            reveal_strlit(":");
            reveal_strlit("-");
            assert(":"@ =~= seq![':']);
            assert("-"@ =~= seq!['-']);
        }
        match &self.base.epoch {
            Some(epoch) => epoch.clone().concat(":").concat(self.base.pkgver.as_str()).concat(
                "-",
            ).concat(self.base.pkgrel.as_str()),
            None => self.base.pkgver.clone().concat("-").concat(self.base.pkgrel.as_str()),
        }
    }

    /// The position of the first package with the name, the number of packages where there is none.
    pub open spec fn pkg_index(self, name: Seq<char>) -> int {
        pkg_index_from(self.pkgs@, name)
    }

    /// Searches for a package with a given pkgname.
    pub fn pkg(&self, name: &String) -> (r: Option<&SrcinfoPkg>)
        ensures
            match r {
                Some(p) => 0 <= self.pkg_index(name@) < self.pkgs@.len() && *p == self.pkgs@[self.pkg_index(
                    name@,
                )],
                None => self.pkg_index(name@) == self.pkgs@.len(),
            },
    {
        let mut i: usize = 0;
        proof {
            assert(self.pkgs@.skip(0) =~= self.pkgs@);
        }
        while i < self.pkgs.len()
            invariant
                i <= self.pkgs.len(),
                self.pkg_index(name@) == i + pkg_index_from(self.pkgs@.skip(i as int), name@),
            decreases self.pkgs.len() - i,
        {
            proof {
                assert(self.pkgs@.skip(i as int).drop_first() =~= self.pkgs@.skip(i + 1));
            }
            if self.pkgs[i].pkgname == *name {
                return Some(&self.pkgs[i]);
            }
            i = i + 1;
        }
        None
    }
}

/// The position of the first package with the name, the number of packages where there is none.
pub open spec fn pkg_index_from(pkgs: Seq<SrcinfoPkg>, name: Seq<char>) -> int
    decreases pkgs.len(),
{
    if pkgs.len() == 0 || pkgs[0].pkgname@ == name {
        0
    } else {
        1 + pkg_index_from(pkgs.drop_first(), name)
    }
}

/// The first package with the name of a package is that one or one before it.
pub proof fn lemma_pkg_index(pkgs: Seq<SrcinfoPkg>, i: int)
    requires
        0 <= i < pkgs.len(),
    ensures
        0 <= pkg_index_from(pkgs, pkgs[i].pkgname@) <= i,
    decreases pkgs.len(),
{
    if i > 0 && pkgs[0].pkgname@ != pkgs[i].pkgname@ {
        lemma_pkg_index(pkgs.drop_first(), i - 1);
    }
}

/// A package that is built: from the AUR or from a pkgbuild repo.
#[derive(Debug, Copy, Clone)]
pub enum AurOrPkgbuild<'a> {
    /// From the AUR.
    Aur(&'a AurPkg),
    /// From a pkgbuild repo.
    Pkgbuild(&'a Srcinfo, &'a SrcinfoPkg),
}

impl<'a> AurOrPkgbuild<'a> {
    /// The base the package is built from.
    pub open spec fn base(self) -> Seq<char> {
        match self {
            AurOrPkgbuild::Aur(pkg) => pkg.package_base@,
            AurOrPkgbuild::Pkgbuild(srcinfo, _) => srcinfo.base.pkgbase@,
        }
    }

    /// What is needed to build and to run the package: make dependencies, check dependencies where
    /// they are asked for, then dependencies.
    pub open spec fn needs(self, arch: Seq<char>, check_depends: bool) -> Seq<Seq<char>> {
        match self {
            AurOrPkgbuild::Aur(pkg) => text::strs(pkg.make_depends@) + (if check_depends {
                text::strs(pkg.check_depends@)
            } else {
                Seq::empty()
            }) + text::strs(pkg.depends@),
            AurOrPkgbuild::Pkgbuild(srcinfo, pkg) => active(
                srcinfo.base.makedepends@,
                Some(arch),
            ) + (if check_depends {
                active(srcinfo.base.checkdepends@, Some(arch))
            } else {
                Seq::empty()
            }) + active(pkg.depends@, Some(arch)),
        }
    }

    /// What is needed to run the package.
    pub open spec fn run_needs(self, arch: Seq<char>) -> Seq<Seq<char>> {
        match self {
            AurOrPkgbuild::Aur(pkg) => text::strs(pkg.depends@),
            AurOrPkgbuild::Pkgbuild(_, pkg) => active(pkg.depends@, Some(arch)),
        }
    }

    /// Gets the base the package is built from.
    pub fn pkgbase(&self) -> (r: &'a String)
        ensures
            r@ == self.base(),
    {
        match self {
            AurOrPkgbuild::Aur(pkg) => &pkg.package_base,
            AurOrPkgbuild::Pkgbuild(srcinfo, _) => &srcinfo.base.pkgbase,
        }
    }

    /// Gets what is needed to build and to run the package.
    pub fn depends(&self, arch: &String, check_depends: bool) -> (r: Vec<String>)
        ensures
            text::strs(r@) == self.needs(arch@, check_depends),
    {
        let mut r: Vec<String> = Vec::new();
        proof {
            assert(text::strs(r@) =~= Seq::<Seq<char>>::empty());
        }
        match self {
            AurOrPkgbuild::Aur(pkg) => {
                extend_names(&mut r, &pkg.make_depends);
                if check_depends {
                    extend_names(&mut r, &pkg.check_depends);
                }
                extend_names(&mut r, &pkg.depends);
            },
            AurOrPkgbuild::Pkgbuild(srcinfo, pkg) => {
                let make = active_values(&srcinfo.base.makedepends, Some(arch));
                extend_names(&mut r, &make);
                if check_depends {
                    let check = active_values(&srcinfo.base.checkdepends, Some(arch));
                    extend_names(&mut r, &check);
                }
                let run = active_values(&pkg.depends, Some(arch));
                extend_names(&mut r, &run);
            },
        }
        proof {
            assert(text::strs(r@) =~= self.needs(arch@, check_depends));
        }
        r
    }

    /// Gets what is needed to run the package.
    pub fn run_depends(&self, arch: &String) -> (r: Vec<String>)
        ensures
            text::strs(r@) == self.run_needs(arch@),
    {
        match self {
            AurOrPkgbuild::Aur(pkg) => text::copy_names(&pkg.depends),
            AurOrPkgbuild::Pkgbuild(_, pkg) => active_values(&pkg.depends, Some(arch)),
        }
    }
}

} // verus!
