//! Noting that packages that were pulled in before are asked for themselves.
use std::sync::Arc;
use vstd::prelude::*;
use crate::alpm::{Alpm, AlpmPkg};
use crate::base::{AurPackage, Base, BaseV, Package, Pkgbuild};
use crate::cb::Group;
use crate::model::St;
use crate::pkg::{AurPkg, SrcinfoPkg};
use crate::resolve::Resolver;

verus! {

/// The package once it is asked for itself: it is a target if it was one or is asked for as one,
/// and it is make only if that is all it has been asked for.
pub open spec fn marked<T>(p: Package<T>, make: bool, target: bool) -> Package<T> {
    Package { pkg: p.pkg, make: p.make && make, target: p.target || target }
}

/// The packages once those are asked for for which `is` holds.
pub open spec fn marked_all<T>(
    pkgs: Seq<Package<T>>,
    is: spec_fn(T) -> bool,
    make: bool,
    target: bool,
) -> Seq<Package<T>> {
    Seq::new(
        pkgs.len(),
        |i: int|
            if is(pkgs[i].pkg) {
                marked(pkgs[i], make, target)
            } else {
                pkgs[i]
            },
    )
}

/// The repo package has the name.
pub open spec fn repo_named<'a>(name: Seq<char>) -> spec_fn(&'a AlpmPkg) -> bool {
    |p: &'a AlpmPkg| p.name@ == name
}

/// The AUR package has the name.
pub open spec fn aur_named(name: Seq<char>) -> spec_fn(Arc<AurPkg>) -> bool {
    |p: Arc<AurPkg>| p.name@ == name
}

/// The package of a pkgbuild repo has the name.
pub open spec fn pkgbuild_named<'a>(name: Seq<char>) -> spec_fn(&'a SrcinfoPkg) -> bool {
    |p: &'a SrcinfoPkg| p.pkgname@ == name
}

/// The base once its packages with the name are asked for.
pub open spec fn base_marked<'a>(
    base: BaseV<'a>,
    name: Seq<char>,
    make: bool,
    target: bool,
) -> BaseV<'a> {
    match base {
        BaseV::Aur { pkgs, build } => BaseV::Aur {
            pkgs: marked_all(pkgs, aur_named(name), make, target),
            build,
        },
        BaseV::Pkgbuild { repo, srcinfo, pkgs, build } => BaseV::Pkgbuild {
            repo,
            srcinfo,
            pkgs: marked_all(pkgs, pkgbuild_named(name), make, target),
            build,
        },
    }
}

impl<'a> St<'a> {
    /// The state once the repo package with the name is asked for.
    pub open spec fn mark_install(self, name: Seq<char>, make: bool, target: bool) -> St<'a> {
        St { install: marked_all(self.install, repo_named(name), make, target), ..self }
    }

    /// The state once the package with the name, which is to be built, is asked for.
    pub open spec fn mark_build(self, name: Seq<char>, make: bool, target: bool) -> St<'a> {
        St {
            build: Seq::new(
                self.build.len(),
                |b: int| base_marked(self.build[b], name, make, target),
            ),
            ..self
        }
    }
}

/// Marks the AUR packages with the name.
fn mark_aur(pkgs: &mut Vec<AurPackage>, name: &String, make: bool, target: bool)
    ensures
        final(pkgs)@ == marked_all(old(pkgs)@, aur_named(name@), make, target),
{
    let ghost before = pkgs@;
    let mut i: usize = 0;
    while i < pkgs.len()
        invariant
            i <= pkgs.len(),
            pkgs.len() == before.len(),
            forall|j: int|
                0 <= j < i ==> #[trigger] pkgs@[j] == marked_all(
                    before,
                    aur_named(name@),
                    make,
                    target,
                )[j],
            forall|j: int| i <= j < pkgs.len() ==> #[trigger] pkgs@[j] == before[j],
        decreases pkgs.len() - i,
    {
        let p = &pkgs[i];
        if p.pkg.name == *name {
            let q: AurPackage = Package {
                pkg: p.pkg.clone(),
                make: p.make && make,
                target: p.target || target,
            };
            pkgs.set(i, q);
        }
        i = i + 1;
    }
    proof {
        assert(pkgs@ =~= marked_all(before, aur_named(name@), make, target));
    }
}

/// Marks the packages of a pkgbuild repo with the name.
fn mark_pkgbuilds<'a>(pkgs: &mut Vec<Pkgbuild<'a>>, name: &String, make: bool, target: bool)
    ensures
        final(pkgs)@ == marked_all(old(pkgs)@, pkgbuild_named(name@), make, target),
{
    let ghost before = pkgs@;
    let mut i: usize = 0;
    while i < pkgs.len()
        invariant
            i <= pkgs.len(),
            pkgs.len() == before.len(),
            forall|j: int|
                0 <= j < i ==> #[trigger] pkgs@[j] == marked_all(
                    before,
                    pkgbuild_named(name@),
                    make,
                    target,
                )[j],
            forall|j: int| i <= j < pkgs.len() ==> #[trigger] pkgs@[j] == before[j],
        decreases pkgs.len() - i,
    {
        let p = &pkgs[i];
        if p.pkg.pkgname == *name {
            let q: Pkgbuild<'a> = Package {
                pkg: p.pkg,
                make: p.make && make,
                target: p.target || target,
            };
            pkgs.set(i, q);
        }
        i = i + 1;
    }
    proof {
        assert(pkgs@ =~= marked_all(before, pkgbuild_named(name@), make, target));
    }
}

impl<
    'a,
    A: Alpm,
    P: Fn(&str, &[String]) -> usize,
    G: Fn(&[Group<'a>]) -> Vec<&'a AlpmPkg>,
    D: Fn(&str) -> bool,
> Resolver<'a, A, P, G, D> {
    /// Notes that the repo package with the name is asked for.
    pub(crate) fn mark_install(&mut self, name: &String, make: bool, target: bool)
        requires
            old(self).wf(),
        ensures
            final(self).wf(),
            final(self).env() == old(self).env(),
            final(self).st() == old(self).st().mark_install(name@, make, target),
    {
        let ghost env = self.env();
        let ghost st = self.st();
        let ghost r = st.mark_install(name@, make, target);
        let mut i: usize = 0;
        while i < self.actions.install.len()
            invariant
                self.wf(),
                self.env() == env,
                r == st.mark_install(name@, make, target),
                i <= self.actions.install.len(),
                self.st().install.len() == st.install.len(),
                self.st() == (St { install: self.st().install, ..st }),
                forall|j: int| 0 <= j < i ==> #[trigger] self.st().install[j] == r.install[j],
                forall|j: int|
                    i <= j < st.install.len() ==> #[trigger] self.st().install[j] == st.install[j],
            decreases self.actions.install.len() - i,
        {
            let ghost cur = self.st().install;
            let p = &self.actions.install[i];
            if p.pkg.name == *name {
                let q = Package { pkg: p.pkg, make: p.make && make, target: p.target || target };
                self.actions.install.set(i, q);
                proof {
                    assert(self.st().install =~= cur.update(i as int, q));
                    assert(cur[i as int] == st.install[i as int]);
                }
            }
            i = i + 1;
        }
        proof {
            assert(self.st().install =~= r.install);
        }
    }

    /// Notes that the package with the name, which is to be built, is asked for.
    pub(crate) fn mark_build(&mut self, name: &String, make: bool, target: bool)
        requires
            old(self).wf(),
        ensures
            final(self).wf(),
            final(self).env() == old(self).env(),
            final(self).st() == old(self).st().mark_build(name@, make, target),
    {
        let ghost env = self.env();
        let ghost st = self.st();
        let ghost r = st.mark_build(name@, make, target);
        let mut i: usize = 0;
        while i < self.actions.build.len()
            invariant
                self.wf(),
                self.env() == env,
                r == st.mark_build(name@, make, target),
                i <= self.actions.build.len(),
                self.st().build.len() == st.build.len(),
                self.st() == (St { build: self.st().build, ..st }),
                forall|j: int| 0 <= j < i ==> #[trigger] self.st().build[j] == r.build[j],
                forall|j: int|
                    i <= j < st.build.len() ==> #[trigger] self.st().build[j] == st.build[j],
            decreases self.actions.build.len() - i,
        {
            let ghost cur = self.st().build;
            let ghost all = self.actions.build@;
            proof {
                assert(cur[i as int] == all[i as int]@);
                assert(all[i as int]@.wf());
            }
            let base = match self.actions.build.remove(i) {
                Base::Aur(base) => {
                    let mut base = base;
                    mark_aur(&mut base.pkgs, name, make, target);
                    Base::Aur(base)
                },
                Base::Pkgbuild(base) => {
                    let mut base = base;
                    mark_pkgbuilds(&mut base.pkgs, name, make, target);
                    Base::Pkgbuild(base)
                },
            };
            self.actions.build.insert(i, base);
            proof {
                assert(self.actions.build@ =~= all.update(i as int, base));
                assert(self.st().build =~= cur.update(i as int, base@));
                assert(cur[i as int] == st.build[i as int]);
            }
            i = i + 1;
        }
        proof {
            assert(self.st().build =~= r.build);
        }
    }
}

} // verus!
