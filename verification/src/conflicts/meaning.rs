//! Which conflicts are reported, stated over the fields of the packages.
use vstd::prelude::*;
use crate::alpm::{AlpmModel, AlpmPkg};
use crate::base;
use crate::base::{AurPackage, BaseV, BuildPkg, Pkgbuild, RepoPackage};
use crate::conflicts;
use crate::conflicts::inner;
use crate::conflicts::{Acts, Clash, ConflictV, ConflictingV};
use crate::depend;
use crate::depend::{DepModVerV, DependV};
use crate::pkg;
use crate::pkg::Srcinfo;
use crate::satisfies::laws;
use crate::satisfies::Satisfies;
use crate::seqs;
use crate::text;

verus! {

/// The name of a package that is to be built.
pub open spec fn name_of<'a>(p: BuildPkg<'a>) -> Seq<char> {
    match p {
        BuildPkg::Aur(p) => p.pkg.name@,
        BuildPkg::Pkgbuild(_, p) => p.pkg.pkgname@,
    }
}

/// A package that is to be built is noted as only needed to build others.
pub open spec fn make_of<'a>(p: BuildPkg<'a>) -> bool {
    match p {
        BuildPkg::Aur(p) => p.make,
        BuildPkg::Pkgbuild(_, p) => p.make,
    }
}

/// The field is for every architecture or for the first one of the system.
pub open spec fn here(m: AlpmModel, f: pkg::ArchVec) -> bool {
    match f.arch {
        None => true,
        Some(a) => m.system.architectures@.len() > 0 && m.system.architectures@[0]@ == a@,
    }
}

/// A package of a database says that it conflicts with it.
pub open spec fn alpm_against(p: AlpmPkg, dep: DependV) -> bool {
    exists|j: int| 0 <= j < p.conflicts@.len() && (#[trigger] p.conflicts@[j])@ == dep
}

/// A package that is to be built says that it conflicts with it.
pub open spec fn build_against<'a>(m: AlpmModel, p: BuildPkg<'a>, dep: DependV) -> bool {
    match p {
        BuildPkg::Aur(p) => exists|j: int|
            0 <= j < p.pkg.conflicts@.len() && (m.depend)((#[trigger] p.pkg.conflicts@[j])@) == dep,
        BuildPkg::Pkgbuild(_, p) => exists|a: int, j: int|
            0 <= a < p.pkg.conflicts@.len() && here(m, p.pkg.conflicts@[a]) && 0 <= j
                < p.pkg.conflicts@[a].vec@.len() && (m.depend)(
                (#[trigger] p.pkg.conflicts@[a].vec@[j])@,
            ) == dep,
    }
}

/// A package that is to be built is what the conflict speaks of, by name, version and provides.
pub open spec fn build_meets<'a>(m: AlpmModel, p: BuildPkg<'a>, dep: DependV) -> bool {
    match p {
        BuildPkg::Aur(p) => p.pkg.which(m, dep, false) is Some,
        BuildPkg::Pkgbuild(s, p) => (s, p.pkg).which(m, dep, false) is Some,
    }
}

/// A package with the name is to be installed or built.
pub open spec fn planned<'a>(a: Acts<'a>, name: Seq<char>) -> bool {
    ||| exists|i: int| 0 <= i < a.install.len() && (#[trigger] a.install[i]).pkg.name@ == name
    ||| exists|i: int| 0 <= i < a.build.len() && name_of(#[trigger] a.build[i]) == name
}

/// A package with the name that is to be installed or built, and that counts, says that it conflicts
/// with it.
pub open spec fn planned_against<'a>(
    a: Acts<'a>,
    makedeps: bool,
    name: Seq<char>,
    dep: DependV,
) -> bool {
    ||| exists|i: int|
        0 <= i < a.install.len() && (#[trigger] a.install[i]).pkg.name@ == name && (makedeps
            || !a.install[i].make) && alpm_against(*a.install[i].pkg, dep)
    ||| exists|i: int|
        0 <= i < a.build.len() && name_of(#[trigger] a.build[i]) == name && (makedeps || !make_of(
            a.build[i],
        )) && build_against(a.m, a.build[i], dep)
}

/// A package with the name that is to be installed or built, and that counts, is what the conflict
/// speaks of.
pub open spec fn planned_meets<'a>(
    a: Acts<'a>,
    makedeps: bool,
    name: Seq<char>,
    dep: DependV,
) -> bool {
    ||| exists|i: int|
        0 <= i < a.install.len() && (#[trigger] a.install[i]).pkg.name@ == name && (makedeps
            || !a.install[i].make) && a.install[i].pkg.which(a.m, dep, false) is Some
    ||| exists|i: int|
        0 <= i < a.build.len() && name_of(#[trigger] a.build[i]) == name && (makedeps || !make_of(
            a.build[i],
        )) && build_meets(a.m, a.build[i], dep)
}

/// The entry names the other package, and the conflict where that says more than the name.
pub open spec fn entry_for(w: ConflictingV, other: Seq<char>, dep: DependV) -> bool {
    &&& w.pkg == other
    &&& w.conflict == (if dep.name == other && dep.depmodver == DepModVerV::Any {
        None::<Seq<char>>
    } else {
        Some(dep.text)
    })
}

/// What comes of the elements that pass.
proof fn lemma_flat<T, U>(s: Seq<T>, p: spec_fn(T) -> bool, f: spec_fn(T) -> Seq<U>, x: U)
    ensures
        seqs::flat(s.filter(p), f).contains(x) <==> exists|i: int|
            0 <= i < s.len() && p(#[trigger] s[i]) && f(s[i]).contains(x),
{
    let t = s.filter(p);
    if seqs::flat(t, f).contains(x) {
        let k = seqs::lemma_flat_from(t, f, x);
        assert(t.contains(t[k]));
        seqs::lemma_filter_contains(s, p, t[k]);
        let i = choose|i: int| 0 <= i < s.len() && s[i] == t[k];
        assert(p(s[i]) && f(s[i]).contains(x));
    }
    if exists|i: int| 0 <= i < s.len() && p(#[trigger] s[i]) && f(s[i]).contains(x) {
        let i = choose|i: int| 0 <= i < s.len() && p(#[trigger] s[i]) && f(s[i]).contains(x);
        seqs::lemma_filter_contains(s, p, s[i]);
        assert(s.contains(s[i]));
        let k = choose|k: int| 0 <= k < t.len() && t[k] == s[i];
        seqs::lemma_flat(t, f, k, x);
    }
}

/// What a package of a database conflicts with.
proof fn lemma_alpm_against(p: AlpmPkg, dep: DependV)
    ensures
        depend::deps(p.conflicts@).contains(dep) <==> alpm_against(p, dep),
{
    let v = depend::deps(p.conflicts@);
    if v.contains(dep) {
        let j = choose|j: int| 0 <= j < v.len() && v[j] == dep;
        assert(p.conflicts@[j]@ == dep);
    }
    if alpm_against(p, dep) {
        let j = choose|j: int| 0 <= j < p.conflicts@.len() && (#[trigger] p.conflicts@[j])@ == dep;
        assert(v[j] == dep);
    }
}

/// What a package that is to be built conflicts with.
proof fn lemma_build_against<'a>(a: Acts<'a>, p: BuildPkg<'a>, dep: DependV)
    ensures
        a.build_conflicts(p).contains(dep) <==> build_against(a.m, p, dep),
{
    let m = a.m;
    let ds = a.build_conflicts(p);
    match p {
        BuildPkg::Aur(p) => {
            let v = p.pkg.conflicts@;
            if ds.contains(dep) {
                let j = choose|j: int| 0 <= j < ds.len() && ds[j] == dep;
                assert((m.depend)(v[j]@) == dep);
            }
            if exists|j: int| 0 <= j < v.len() && (m.depend)((#[trigger] v[j])@) == dep {
                let j = choose|j: int| 0 <= j < v.len() && (m.depend)((#[trigger] v[j])@) == dep;
                assert(ds[j] == dep);
            }
        },
        BuildPkg::Pkgbuild(_, p) => {
            let v = p.pkg.conflicts@;
            let arch = if m.system.architectures@.len() > 0 {
                Some(m.system.architectures@[0]@)
            } else {
                None
            };
            let names = pkg::active(v, arch);
            if ds.contains(dep) {
                let j = choose|j: int| 0 <= j < ds.len() && ds[j] == dep;
                assert(names.contains(names[j]));
                laws::lemma_active(v, arch, names[j]);
                let (x, i) = choose|x: int, i: int|
                    0 <= x < v.len() && laws::applies(v[x], arch) && 0 <= i < v[x].vec@.len() && (
                    #[trigger] v[x].vec@[i])@ == names[j];
                assert(here(m, v[x]));
                assert((m.depend)(v[x].vec@[i]@) == dep);
            }
            if exists|x: int, i: int|
                0 <= x < v.len() && here(m, v[x]) && 0 <= i < v[x].vec@.len() && (m.depend)(
                    (#[trigger] v[x].vec@[i])@,
                ) == dep {
                let (x, i) = choose|x: int, i: int|
                    0 <= x < v.len() && here(m, v[x]) && 0 <= i < v[x].vec@.len() && (m.depend)(
                        (#[trigger] v[x].vec@[i])@,
                    ) == dep;
                let s = v[x].vec@[i]@;
                assert(laws::applies(v[x], arch));
                laws::lemma_active(v, arch, s);
                let j = choose|j: int| 0 <= j < names.len() && names[j] == s;
                assert(ds[j] == dep);
            }
        },
    }
}

/// What is to be installed or built.
proof fn lemma_planned<'a>(a: Acts<'a>, name: Seq<char>)
    ensures
        a.has(name) <==> planned(a, name),
{
    if seqs::any(a.build, conflicts::build_named(name)) {
        let i = choose|i: int| 0 <= i < a.build.len() && conflicts::build_named(name)(
            #[trigger] a.build[i],
        );
        assert(name_of(a.build[i]) == name);
    }
    if seqs::any(a.install, conflicts::repo_named(name)) {
        let i = choose|i: int| 0 <= i < a.install.len() && conflicts::repo_named(name)(
            #[trigger] a.install[i],
        );
        assert(a.install[i].pkg.name@ == name);
    }
    if exists|i: int| 0 <= i < a.install.len() && (#[trigger] a.install[i]).pkg.name@ == name {
        let i = choose|i: int|
            0 <= i < a.install.len() && (#[trigger] a.install[i]).pkg.name@ == name;
        assert(conflicts::repo_named(name)(a.install[i]));
    }
    if exists|i: int| 0 <= i < a.build.len() && name_of(#[trigger] a.build[i]) == name {
        let i = choose|i: int| 0 <= i < a.build.len() && name_of(#[trigger] a.build[i]) == name;
        assert(conflicts::build_named(name)(a.build[i]));
    }
}

/// A conflict held against what is to be installed and built.
proof fn lemma_reverse<'a>(
    a: Acts<'a>,
    makedeps: bool,
    name: Seq<char>,
    dep: DependV,
    c: Clash,
)
    ensures
        a.reverse(!makedeps, name)(dep).contains(c) <==> c.with == name && c.dep == dep && c.pkg
            != name && planned_meets(a, makedeps, c.pkg, dep),
{
    let h = a.repo_hit(!makedeps, name, dep);
    let g = a.build_hit(!makedeps, name, dep);
    let x = a.install.filter(h).map_values(conflicts::repo_clash(name, dep));
    let y = a.build.filter(g).map_values(conflicts::build_clash(name, dep));
    conflicts::lemma_contains_sum(x, y, c);
    conflicts::lemma_contains_map(a.install, h, conflicts::repo_clash(name, dep), c);
    conflicts::lemma_contains_map(a.build, g, conflicts::build_clash(name, dep), c);
    if x.contains(c) {
        let p = choose|p: RepoPackage<'a>| #[trigger]
            a.install.contains(p) && h(p) && conflicts::repo_clash(name, dep)(p) == c;
        let i = choose|i: int| 0 <= i < a.install.len() && a.install[i] == p;
        assert(a.install[i].pkg.name@ == c.pkg);
    }
    if y.contains(c) {
        let p = choose|p: BuildPkg<'a>| #[trigger]
            a.build.contains(p) && g(p) && conflicts::build_clash(name, dep)(p) == c;
        let i = choose|i: int| 0 <= i < a.build.len() && a.build[i] == p;
        assert(name_of(a.build[i]) == c.pkg);
    }
    if c.with == name && c.dep == dep && c.pkg != name && planned_meets(a, makedeps, c.pkg, dep) {
        if exists|i: int|
            0 <= i < a.install.len() && (#[trigger] a.install[i]).pkg.name@ == c.pkg && (makedeps
                || !a.install[i].make) && a.install[i].pkg.which(a.m, dep, false) is Some {
            let i = choose|i: int|
                0 <= i < a.install.len() && (#[trigger] a.install[i]).pkg.name@ == c.pkg && (
                makedeps || !a.install[i].make) && a.install[i].pkg.which(a.m, dep, false) is Some;
            assert(a.install.contains(a.install[i]));
            assert(h(a.install[i]));
        } else {
            let i = choose|i: int|
                0 <= i < a.build.len() && name_of(#[trigger] a.build[i]) == c.pkg && (makedeps
                    || !make_of(a.build[i])) && build_meets(a.m, a.build[i], dep);
            assert(a.build.contains(a.build[i]));
            assert(g(a.build[i]));
        }
    }
}

/// A conflict held against what is installed.
proof fn lemma_forward<'a>(a: Acts<'a>, name: Seq<char>, dep: DependV, c: Clash)
    ensures
        a.forward(name)(dep).contains(c) <==> c.pkg == name && c.dep == dep && c.with != name
            && !planned(a, c.with) && exists|i: int|
            0 <= i < a.m.system.localdb@.len() && (#[trigger] a.m.system.localdb@[i]).name@ == c.with
                && a.m.system.localdb@[i].which(a.m, dep, false) is Some,
{
    let local = a.m.system.localdb@;
    let h = a.local_hit(name, dep);
    conflicts::lemma_contains_map(local, h, conflicts::local_clash(name, dep), c);
    lemma_planned(a, c.with);
    if a.forward(name)(dep).contains(c) {
        let p = choose|p: AlpmPkg| #[trigger]
            local.contains(p) && h(p) && conflicts::local_clash(name, dep)(p) == c;
        let i = choose|i: int| 0 <= i < local.len() && local[i] == p;
        assert(local[i].name@ == c.with);
    }
    if c.pkg == name && c.dep == dep && c.with != name && !planned(a, c.with) && exists|i: int|
        0 <= i < local.len() && (#[trigger] local[i]).name@ == c.with && local[i].which(
            a.m,
            dep,
            false,
        ) is Some {
        let i = choose|i: int|
            0 <= i < local.len() && (#[trigger] local[i]).name@ == c.with && local[i].which(
                a.m,
                dep,
                false,
            ) is Some;
        assert(local.contains(local[i]));
        assert(h(local[i]));
    }
}

/// The conflicts of a package, held against what is to be installed and built.
proof fn lemma_reverse_list<'a>(
    a: Acts<'a>,
    makedeps: bool,
    name: Seq<char>,
    deps: Seq<DependV>,
    c: Clash,
)
    ensures
        seqs::flat(deps, a.reverse(!makedeps, name)).contains(c) <==> c.with == name
            && deps.contains(c.dep) && c.pkg != name && planned_meets(a, makedeps, c.pkg, c.dep),
{
    let f = a.reverse(!makedeps, name);
    if seqs::flat(deps, f).contains(c) {
        let i = seqs::lemma_flat_from(deps, f, c);
        lemma_reverse(a, makedeps, name, deps[i], c);
        assert(deps.contains(deps[i]));
    }
    if c.with == name && deps.contains(c.dep) && c.pkg != name && planned_meets(
        a,
        makedeps,
        c.pkg,
        c.dep,
    ) {
        let i = choose|i: int| 0 <= i < deps.len() && deps[i] == c.dep;
        lemma_reverse(a, makedeps, name, deps[i], c);
        seqs::lemma_flat(deps, f, i, c);
    }
}

/// The clash is of an installed package that stays with one that is to be installed or built.
pub open spec fn clash_with_installed<'a>(
    a: Acts<'a>,
    makedeps: bool,
    pkg: Seq<char>,
    other: Seq<char>,
    dep: DependV,
) -> bool {
    &&& pkg != other
    &&& !planned(a, other)
    &&& exists|i: int|
        0 <= i < a.m.system.localdb@.len() && (#[trigger] a.m.system.localdb@[i]).name@ == other && (
        (alpm_against(a.m.system.localdb@[i], dep) && planned_meets(a, makedeps, pkg, dep)) || (
        planned_against(a, makedeps, pkg, dep) && a.m.system.localdb@[i].which(
            a.m,
            dep,
            false,
        ) is Some))
}

/// The clash is between two packages that are to be installed or built.
pub open spec fn clash_inside<'a>(
    a: Acts<'a>,
    makedeps: bool,
    pkg: Seq<char>,
    other: Seq<char>,
    dep: DependV,
) -> bool {
    &&& pkg != other
    &&& planned_against(a, makedeps, other, dep)
    &&& planned_meets(a, makedeps, pkg, dep)
}

/// There is a clash of the package with an installed one that stays, and the entry is for it.
pub open spec fn conflicts_with_installed<'a>(
    a: Acts<'a>,
    makedeps: bool,
    pkg: Seq<char>,
    w: ConflictingV,
) -> bool {
    exists|dep: DependV|
        entry_for(w, w.pkg, dep) && #[trigger] clash_with_installed(a, makedeps, pkg, w.pkg, dep)
}

/// There is a clash of the package with another that is to be installed or built, and the entry is for
/// it.
pub open spec fn conflicts_inside<'a>(
    a: Acts<'a>,
    makedeps: bool,
    pkg: Seq<char>,
    w: ConflictingV,
) -> bool {
    exists|dep: DependV|
        entry_for(w, w.pkg, dep) && #[trigger] clash_inside(a, makedeps, pkg, w.pkg, dep)
}

/// The clashes with what is installed.
proof fn lemma_clashes<'a>(a: Acts<'a>, makedeps: bool, c: Clash)
    ensures
        a.clashes(!makedeps).contains(c) <==> clash_with_installed(
            a,
            makedeps,
            c.pkg,
            c.with,
            c.dep,
        ),
{
    let runtime = !makedeps;
    let local = a.m.system.localdb@;
    let x = seqs::flat(a.install.filter(conflicts::repo_counts(runtime)), a.repo_forward());
    let y = seqs::flat(a.build.filter(conflicts::build_counts(runtime)), a.build_forward());
    conflicts::lemma_contains_sum(a.reverse_clashes(runtime), a.forward_clashes(runtime), c);
    conflicts::lemma_contains_sum(x, y, c);
    lemma_flat(local, a.stays(), a.local_reverse(runtime), c);
    lemma_flat(a.install, conflicts::repo_counts(runtime), a.repo_forward(), c);
    lemma_flat(a.build, conflicts::build_counts(runtime), a.build_forward(), c);
    lemma_planned(a, c.with);
    if a.reverse_clashes(runtime).contains(c) {
        let i = choose|i: int|
            0 <= i < local.len() && a.stays()(#[trigger] local[i]) && a.local_reverse(runtime)(
                local[i],
            ).contains(c);
        let p = local[i];
        lemma_reverse_list(a, makedeps, p.name@, depend::deps(p.conflicts@), c);
        lemma_alpm_against(p, c.dep);
        assert(local[i].name@ == c.with);
    }
    if x.contains(c) {
        let i = choose|i: int|
            0 <= i < a.install.len() && conflicts::repo_counts(runtime)(#[trigger] a.install[i])
                && a.repo_forward()(a.install[i]).contains(c);
        let p = a.install[i];
        let ds = depend::deps(p.pkg.conflicts@);
        let j = seqs::lemma_flat_from(ds, a.forward(p.pkg.name@), c);
        lemma_forward(a, p.pkg.name@, ds[j], c);
        assert(ds.contains(ds[j]));
        lemma_alpm_against(*p.pkg, c.dep);
        assert(a.install[i].pkg.name@ == c.pkg);
        assert(planned_against(a, makedeps, c.pkg, c.dep));
    }
    if y.contains(c) {
        let i = choose|i: int|
            0 <= i < a.build.len() && conflicts::build_counts(runtime)(#[trigger] a.build[i])
                && a.build_forward()(a.build[i]).contains(c);
        let p = a.build[i];
        let ds = a.build_conflicts(p);
        let j = seqs::lemma_flat_from(ds, a.forward(p.pkgname()), c);
        lemma_forward(a, p.pkgname(), ds[j], c);
        assert(ds.contains(ds[j]));
        lemma_build_against(a, p, c.dep);
        assert(name_of(a.build[i]) == c.pkg);
        assert(planned_against(a, makedeps, c.pkg, c.dep));
    }
    if clash_with_installed(a, makedeps, c.pkg, c.with, c.dep) {
        let i = choose|i: int|
            0 <= i < local.len() && (#[trigger] local[i]).name@ == c.with && ((alpm_against(
                local[i],
                c.dep,
            ) && planned_meets(a, makedeps, c.pkg, c.dep)) || (planned_against(
                a,
                makedeps,
                c.pkg,
                c.dep,
            ) && local[i].which(a.m, c.dep, false) is Some));
        let q = local[i];
        assert(a.stays()(local[i]));
        if alpm_against(q, c.dep) && planned_meets(a, makedeps, c.pkg, c.dep) {
            lemma_alpm_against(q, c.dep);
            lemma_reverse_list(a, makedeps, q.name@, depend::deps(q.conflicts@), c);
            assert(a.local_reverse(runtime)(local[i]).contains(c));
        } else if exists|k: int|
            0 <= k < a.install.len() && (#[trigger] a.install[k]).pkg.name@ == c.pkg && (makedeps
                || !a.install[k].make) && alpm_against(*a.install[k].pkg, c.dep) {
            let k = choose|k: int|
                0 <= k < a.install.len() && (#[trigger] a.install[k]).pkg.name@ == c.pkg && (
                makedeps || !a.install[k].make) && alpm_against(*a.install[k].pkg, c.dep);
            let ds = depend::deps(a.install[k].pkg.conflicts@);
            lemma_alpm_against(*a.install[k].pkg, c.dep);
            let j = choose|j: int| 0 <= j < ds.len() && ds[j] == c.dep;
            lemma_forward(a, c.pkg, ds[j], c);
            seqs::lemma_flat(ds, a.forward(c.pkg), j, c);
            assert(a.repo_forward()(a.install[k]).contains(c));
            assert(conflicts::repo_counts(runtime)(a.install[k]));
        } else {
            let k = choose|k: int|
                0 <= k < a.build.len() && name_of(#[trigger] a.build[k]) == c.pkg && (makedeps
                    || !make_of(a.build[k])) && build_against(a.m, a.build[k], c.dep);
            let ds = a.build_conflicts(a.build[k]);
            lemma_build_against(a, a.build[k], c.dep);
            let j = choose|j: int| 0 <= j < ds.len() && ds[j] == c.dep;
            lemma_forward(a, c.pkg, ds[j], c);
            seqs::lemma_flat(ds, a.forward(c.pkg), j, c);
            assert(a.build_forward()(a.build[k]).contains(c));
            assert(conflicts::build_counts(runtime)(a.build[k]));
        }
    }
}

/// The clashes among what is to be installed and built.
proof fn lemma_inner<'a>(a: Acts<'a>, makedeps: bool, c: Clash)
    ensures
        a.inner_clashes(!makedeps).contains(c) <==> clash_inside(
            a,
            makedeps,
            c.pkg,
            c.with,
            c.dep,
        ),
{
    let runtime = !makedeps;
    let x = seqs::flat(a.install.filter(conflicts::repo_counts(runtime)), a.repo_reverse(runtime));
    let y = seqs::flat(a.build.filter(conflicts::build_counts(runtime)), a.build_reverse(runtime));
    conflicts::lemma_contains_sum(x, y, c);
    lemma_flat(a.install, conflicts::repo_counts(runtime), a.repo_reverse(runtime), c);
    lemma_flat(a.build, conflicts::build_counts(runtime), a.build_reverse(runtime), c);
    if x.contains(c) {
        let i = choose|i: int|
            0 <= i < a.install.len() && conflicts::repo_counts(runtime)(#[trigger] a.install[i])
                && a.repo_reverse(runtime)(a.install[i]).contains(c);
        let p = a.install[i];
        lemma_reverse_list(a, makedeps, p.pkg.name@, depend::deps(p.pkg.conflicts@), c);
        lemma_alpm_against(*p.pkg, c.dep);
        assert(a.install[i].pkg.name@ == c.with);
        assert(planned_against(a, makedeps, c.with, c.dep));
    }
    if y.contains(c) {
        let i = choose|i: int|
            0 <= i < a.build.len() && conflicts::build_counts(runtime)(#[trigger] a.build[i])
                && a.build_reverse(runtime)(a.build[i]).contains(c);
        let p = a.build[i];
        lemma_reverse_list(a, makedeps, p.pkgname(), a.build_conflicts(p), c);
        lemma_build_against(a, p, c.dep);
        assert(name_of(a.build[i]) == c.with);
        assert(planned_against(a, makedeps, c.with, c.dep));
    }
    if clash_inside(a, makedeps, c.pkg, c.with, c.dep) {
        if exists|k: int|
            0 <= k < a.install.len() && (#[trigger] a.install[k]).pkg.name@ == c.with && (makedeps
                || !a.install[k].make) && alpm_against(*a.install[k].pkg, c.dep) {
            let k = choose|k: int|
                0 <= k < a.install.len() && (#[trigger] a.install[k]).pkg.name@ == c.with && (
                makedeps || !a.install[k].make) && alpm_against(*a.install[k].pkg, c.dep);
            lemma_alpm_against(*a.install[k].pkg, c.dep);
            lemma_reverse_list(
                a,
                makedeps,
                c.with,
                depend::deps(a.install[k].pkg.conflicts@),
                c,
            );
            assert(a.repo_reverse(runtime)(a.install[k]).contains(c));
            assert(conflicts::repo_counts(runtime)(a.install[k]));
        } else {
            let k = choose|k: int|
                0 <= k < a.build.len() && name_of(#[trigger] a.build[k]) == c.with && (makedeps
                    || !make_of(a.build[k])) && build_against(a.m, a.build[k], c.dep);
            lemma_build_against(a, a.build[k], c.dep);
            lemma_reverse_list(a, makedeps, c.with, a.build_conflicts(a.build[k]), c);
            assert(a.build_reverse(runtime)(a.build[k]).contains(c));
            assert(conflicts::build_counts(runtime)(a.build[k]));
        }
    }
}

/// What is reported of a clash.
proof fn lemma_between(c: Clash, pkg: Seq<char>, w: ConflictingV)
    ensures
        inner::between(c, pkg, w) <==> c.pkg == pkg && entry_for(w, c.with, c.dep),
{
}

/// A package that is to be installed or built is reported to conflict with an installed one where,
/// and only where, the installed one is not to be replaced, the two differ in name, and one of them
/// says that it conflicts with something that the other is by name, version and provides. Version
/// constraints of conflicts always count.
pub proof fn law_conflicts<'a>(
    a: Acts<'a>,
    makedeps: bool,
    r: Seq<ConflictV>,
    pkg: Seq<char>,
    w: ConflictingV,
)
    requires
        conflicts::grouped(a.clashes(!makedeps), r),
    ensures
        inner::reported(r, pkg, w) <==> conflicts_with_installed(a, makedeps, pkg, w),
{
    let all = a.clashes(!makedeps);
    inner::lemma_reported(all, r, pkg, w);
    if inner::reported(r, pkg, w) {
        let c = choose|c: Clash| #[trigger] all.contains(c) && inner::between(c, pkg, w);
        lemma_between(c, pkg, w);
        lemma_clashes(a, makedeps, c);
        assert(clash_with_installed(a, makedeps, pkg, w.pkg, c.dep));
    }
    if exists|dep: DependV|
        entry_for(w, w.pkg, dep) && #[trigger] clash_with_installed(a, makedeps, pkg, w.pkg, dep) {
        let dep = choose|dep: DependV|
            entry_for(w, w.pkg, dep) && #[trigger] clash_with_installed(
                a,
                makedeps,
                pkg,
                w.pkg,
                dep,
            );
        let c = Clash { pkg, with: w.pkg, dep };
        lemma_between(c, pkg, w);
        lemma_clashes(a, makedeps, c);
        assert(all.contains(c));
    }
}

/// A package that is to be installed or built is reported to conflict with another where, and only
/// where, the other says that it conflicts with something that the first is by name, version and
/// provides. Version constraints of conflicts always count.
pub proof fn law_inside<'a>(
    a: Acts<'a>,
    makedeps: bool,
    r: Seq<ConflictV>,
    pkg: Seq<char>,
    w: ConflictingV,
)
    requires
        conflicts::grouped(a.inner_clashes(!makedeps), r),
    ensures
        inner::reported(r, pkg, w) <==> conflicts_inside(a, makedeps, pkg, w),
{
    let all = a.inner_clashes(!makedeps);
    inner::lemma_reported(all, r, pkg, w);
    if inner::reported(r, pkg, w) {
        let c = choose|c: Clash| #[trigger] all.contains(c) && inner::between(c, pkg, w);
        lemma_between(c, pkg, w);
        lemma_inner(a, makedeps, c);
        assert(clash_inside(a, makedeps, pkg, w.pkg, c.dep));
    }
    if exists|dep: DependV|
        entry_for(w, w.pkg, dep) && #[trigger] clash_inside(a, makedeps, pkg, w.pkg, dep) {
        let dep = choose|dep: DependV|
            entry_for(w, w.pkg, dep) && #[trigger] clash_inside(a, makedeps, pkg, w.pkg, dep);
        let c = Clash { pkg, with: w.pkg, dep };
        lemma_between(c, pkg, w);
        lemma_inner(a, makedeps, c);
        assert(all.contains(c));
    }
}

/// A version that a conflict rules out is no conflict: where an installed package has no provides,
/// and the packages that are to be installed or built say only that they conflict with versions of
/// it below `v`, the package conflicts with it exactly where its version is below `v`.
pub proof fn law_conflict_below<'a>(
    a: Acts<'a>,
    makedeps: bool,
    pkg: Seq<char>,
    q: AlpmPkg,
    v: Seq<char>,
    text: Seq<char>,
)
    requires
        a.m.system.localdb@ == seq![q],
        q.provides@.len() == 0,
        q.conflicts@.len() == 0,
        !planned(a, q.name@),
        planned_against(
            a,
            makedeps,
            pkg,
            (DependV { name: q.name@, depmodver: DepModVerV::Lt(v), text }),
        ),
        pkg != q.name@,
    ensures
        ({
            let dep = DependV { name: q.name@, depmodver: DepModVerV::Lt(v), text };
            let c = Clash { pkg, with: q.name@, dep };
            a.clashes(!makedeps).contains(c) <==> (a.m.vercmp)(q.version@, v)
                == crate::depend::VerOrder::Less
        }),
{
    let dep = DependV { name: q.name@, depmodver: DepModVerV::Lt(v), text };
    let c = Clash { pkg, with: q.name@, dep };
    lemma_clashes(a, makedeps, c);
    laws::law_constraint(a.m, q.name@, text, v, q);
    assert(a.m.system.localdb@[0] == q);
}

/// What is to be built are the packages of the bases.
pub proof fn law_build_pkgs<'a>(bases: Seq<BaseV<'a>>, p: BuildPkg<'a>)
    ensures
        seqs::flat(bases, base::base_pkgs()).contains(p) <==> exists|b: int|
            0 <= b < bases.len() && match #[trigger] bases[b] {
                BaseV::Aur { pkgs, .. } => exists|k: int|
                    0 <= k < pkgs.len() && p == BuildPkg::<'a>::Aur(#[trigger] pkgs[k]),
                BaseV::Pkgbuild { srcinfo, pkgs, .. } => exists|k: int|
                    0 <= k < pkgs.len() && p == BuildPkg::Pkgbuild(srcinfo, #[trigger] pkgs[k]),
            },
{
    let f = base::base_pkgs::<'a>();
    assert forall|b: int| 0 <= b < bases.len() implies f(#[trigger] bases[b]).contains(p) == match bases[b] {
        BaseV::Aur { pkgs, .. } => exists|k: int|
            0 <= k < pkgs.len() && p == BuildPkg::<'a>::Aur(#[trigger] pkgs[k]),
        BaseV::Pkgbuild { srcinfo, pkgs, .. } => exists|k: int|
            0 <= k < pkgs.len() && p == BuildPkg::Pkgbuild(srcinfo, #[trigger] pkgs[k]),
    } by {
        let v = f(bases[b]);
        if v.contains(p) {
            let k = choose|k: int| 0 <= k < v.len() && v[k] == p;
            match bases[b] {
                BaseV::Aur { pkgs, .. } => {
                    assert(p == BuildPkg::<'a>::Aur(pkgs[k]));
                },
                BaseV::Pkgbuild { srcinfo, pkgs, .. } => {
                    assert(p == BuildPkg::Pkgbuild(srcinfo, pkgs[k]));
                },
            }
        }
        match bases[b] {
            BaseV::Aur { pkgs, .. } => {
                if exists|k: int| 0 <= k < pkgs.len() && p == BuildPkg::<'a>::Aur(
                    #[trigger] pkgs[k],
                ) {
                    let k = choose|k: int|
                        0 <= k < pkgs.len() && p == BuildPkg::<'a>::Aur(#[trigger] pkgs[k]);
                    assert(v[k] == p);
                }
            },
            BaseV::Pkgbuild { srcinfo, pkgs, .. } => {
                if exists|k: int|
                    0 <= k < pkgs.len() && p == BuildPkg::Pkgbuild(srcinfo, #[trigger] pkgs[k]) {
                    let k = choose|k: int|
                        0 <= k < pkgs.len() && p == BuildPkg::Pkgbuild(srcinfo, #[trigger] pkgs[k]);
                    assert(v[k] == p);
                }
            },
        }
    }
    if seqs::flat(bases, f).contains(p) {
        let b = seqs::lemma_flat_from(bases, f, p);
        assert(f(bases[b]).contains(p));
    }
    if exists|b: int| 0 <= b < bases.len() && f(#[trigger] bases[b]).contains(p) {
        let b = choose|b: int| 0 <= b < bases.len() && f(#[trigger] bases[b]).contains(p);
        seqs::lemma_flat(bases, f, b, p);
    }
}

/// A name is repeated as often as it occurs after its first time.
pub proof fn law_repeated(names: Seq<Seq<char>>, name: Seq<char>)
    ensures
        conflicts::repeated(names).contains(name) <==> exists|i: int, j: int|
            0 <= i < j < names.len() && #[trigger] names[i] == name && #[trigger] names[j] == name,
    decreases names.len(),
{
    if names.len() > 0 {
        let s = names.drop_last();
        let r = conflicts::repeated(names);
        let t = conflicts::repeated(s);
        law_repeated(s, name);
        if r.contains(name) {
            let k = choose|k: int| 0 <= k < r.len() && r[k] == name;
            if t.contains(name) {
                let (i, j) = choose|i: int, j: int|
                    0 <= i < j < s.len() && #[trigger] s[i] == name && #[trigger] s[j] == name;
                assert(names[i] == name && names[j] == name);
            } else {
                if k < t.len() {
                    assert(t[k] == name);
                }
                assert(names.last() == name && s.contains(name));
                let i = choose|i: int| 0 <= i < s.len() && s[i] == name;
                assert(names[i] == name && names[names.len() - 1] == name);
            }
        }
        if exists|i: int, j: int|
            0 <= i < j < names.len() && #[trigger] names[i] == name && #[trigger] names[j] == name {
            let (i, j) = choose|i: int, j: int|
                0 <= i < j < names.len() && #[trigger] names[i] == name && #[trigger] names[j]
                    == name;
            if j < names.len() - 1 {
                assert(s[i] == name && s[j] == name);
                let k = choose|k: int| 0 <= k < t.len() && t[k] == name;
                assert(r[k] == name);
            } else {
                assert(s[i] == name);
                assert(r[r.len() - 1] == name);
            }
        }
    }
}

/// Conflicts are listed by package in order, each package once, and none without a package that it
/// conflicts with.
pub proof fn law_listed(clashes: Seq<Clash>, r: Seq<ConflictV>, i: int, j: int)
    requires
        conflicts::grouped(clashes, r),
        0 <= i < j < r.len(),
    ensures
        exists|k: int| text::precedes_at(r[i].pkg, r[j].pkg, k),
        r[i].conflicting.len() > 0,
        r[j].conflicting.len() > 0,
{
    text::law_str_lt(r[i].pkg, r[j].pkg);
}

/// Duplicates are looked for among the names of all the packages that are to be installed and built.
pub proof fn law_names<'a>(a: Acts<'a>, i: int)
    ensures
        a.names().len() == a.install.len() + a.build.len(),
        0 <= i < a.install.len() ==> a.names()[i] == a.install[i].pkg.name@,
        0 <= i < a.build.len() ==> a.names()[a.install.len() + i] == name_of(a.build[i]),
{
}

/// The packages that are to be built are those from the AUR and those from pkgbuild repos.
pub proof fn law_parts<'a>(build: Seq<BuildPkg<'a>>, p: AurPackage, s: &'a Srcinfo, q: Pkgbuild<'a>)
    ensures
        seqs::flat(build, conflicts::aur_part()).contains(p) <==> build.contains(BuildPkg::Aur(p)),
        seqs::flat(build, conflicts::pkgbuild_part()).contains((s, q)) <==> build.contains(
            BuildPkg::Pkgbuild(s, q),
        ),
{
    let f = conflicts::aur_part::<'a>();
    let g = conflicts::pkgbuild_part::<'a>();
    if seqs::flat(build, f).contains(p) {
        let i = seqs::lemma_flat_from(build, f, p);
        assert(build[i] == BuildPkg::<'a>::Aur(p));
    }
    if build.contains(BuildPkg::Aur(p)) {
        let i = choose|i: int| 0 <= i < build.len() && build[i] == BuildPkg::<'a>::Aur(p);
        assert(f(build[i])[0] == p);
        seqs::lemma_flat(build, f, i, p);
    }
    if seqs::flat(build, g).contains((s, q)) {
        let i = seqs::lemma_flat_from(build, g, (s, q));
        assert(build[i] == BuildPkg::Pkgbuild(s, q));
    }
    if build.contains(BuildPkg::Pkgbuild(s, q)) {
        let i = choose|i: int| 0 <= i < build.len() && build[i] == BuildPkg::Pkgbuild(s, q);
        assert(g(build[i])[0] == (s, q));
        seqs::lemma_flat(build, g, i, (s, q));
    }
}

} // verus!
