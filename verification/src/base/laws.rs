//! What a base says of its packages.
use vstd::prelude::*;
use crate::base;
use crate::base::{BaseV, BuildPkg};
use crate::satisfies::laws::is_version;
use crate::satisfies::laws;

verus! {

/// A base with one package is written as the package and the version, one with several as the base and
/// the version with the packages in brackets, in order and with spaces between them.
pub proof fn law_base_text(
    pkgbase: Seq<char>,
    ver: Seq<char>,
    pkgs: Seq<Seq<char>>,
    p: Seq<char>,
    q: Seq<char>,
)
    ensures
        base::base_text(pkgbase, ver, seq![p]) == p + seq!['-'] + ver,
        base::base_text(pkgbase, ver, seq![p, q]) == pkgbase + seq!['-'] + ver + seq![' ', '('] + p
            + seq![' '] + q + seq![')'],
        pkgs.len() > 1 ==> base::base_text(pkgbase, ver, pkgs.push(p)) == base::base_text(
            pkgbase,
            ver,
            pkgs,
        ).drop_last() + seq![' '] + p + seq![')'],
{
    let two = seq![p, q].drop_first();
    assert(two =~= seq![q]);
    assert(two.drop_last() =~= Seq::<Seq<char>>::empty());
    assert(two.last() == q);
    assert(base::spaced(two.drop_last()) =~= Seq::<char>::empty());
    assert(base::spaced(two) =~= seq![' '] + q);
    assert(base::base_text(pkgbase, ver, seq![p, q]) =~= pkgbase + seq!['-'] + ver + seq![' ', '(']
        + p + seq![' '] + q + seq![')']);
    if pkgs.len() > 1 {
        let rest = pkgs.drop_first();
        let more = pkgs.push(p).drop_first();
        assert(more =~= rest.push(p));
        assert(more.drop_last() =~= rest);
        assert(base::spaced(more) =~= base::spaced(rest) + seq![' '] + p);
        assert(base::base_text(pkgbase, ver, pkgs).drop_last() =~= pkgbase + seq!['-'] + ver + seq![
            ' ',
            '(',
        ] + pkgs[0] + base::spaced(rest));
        assert(base::base_text(pkgbase, ver, pkgs.push(p)) =~= base::base_text(
            pkgbase,
            ver,
            pkgs,
        ).drop_last() + seq![' '] + p + seq![')']);
    }
}

/// A base goes by what its packages say, and one of a pkgbuild repo has the name and the version of
/// its .SRCINFO.
pub proof fn law_base<'a>(b: BaseV<'a>, k: int, version: Seq<char>)
    ensures
        match b {
            BaseV::Aur { pkgs, build } => {
                &&& b.names().len() == pkgs.len()
                &&& b.makes().len() == pkgs.len()
                &&& b.targets().len() == pkgs.len()
                &&& b.builds() == build
                &&& 0 <= k < pkgs.len() ==> b.names()[k] == pkgs[k].pkg.name@ && b.makes()[k]
                    == pkgs[k].make && b.targets()[k] == pkgs[k].target
                &&& pkgs.len() > 0 ==> b.name() == pkgs[0].pkg.package_base@ && b.version()
                    == pkgs[0].pkg.version@
            },
            BaseV::Pkgbuild { srcinfo, pkgs, build, .. } => {
                &&& b.names().len() == pkgs.len()
                &&& b.makes().len() == pkgs.len()
                &&& b.targets().len() == pkgs.len()
                &&& b.builds() == build
                &&& 0 <= k < pkgs.len() ==> b.names()[k] == pkgs[k].pkg.pkgname@ && b.makes()[k]
                    == pkgs[k].make && b.targets()[k] == pkgs[k].target
                &&& b.name() == srcinfo.base.pkgbase@
                &&& is_version(*srcinfo, version) ==> b.version() == version
            },
        },
{
    if let BaseV::Pkgbuild { srcinfo, .. } = b {
        laws::law_srcinfo_version(*srcinfo, version);
    }
}

/// A package that is to be built goes by its own name and is make only where it is noted as such.
pub proof fn law_build_pkg<'a>(p: BuildPkg<'a>)
    ensures
        match p {
            BuildPkg::Aur(q) => p.pkgname() == q.pkg.name@ && p.is_make() == q.make,
            BuildPkg::Pkgbuild(_, q) => p.pkgname() == q.pkg.pkgname@ && p.is_make() == q.make,
        },
{
}

} // verus!
