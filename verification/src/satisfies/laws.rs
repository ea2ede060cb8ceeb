//! When a dependency is met, stated over the fields of packages and how libalpm orders versions.
use vstd::prelude::*;
use crate::alpm::{AlpmModel, AlpmPkg};
use crate::depend::{DepModVerV, DependV, VerOrder};
use crate::pkg;
use crate::pkg::{AurPkg, Srcinfo, SrcinfoPkg};
use crate::satisfies;
use crate::satisfies::Satisfies;
use crate::text;

verus! {

/// The version is `v` or a release of it: `v`, which holds no `-`, or `v` followed by `-`.
pub open spec fn is_release(version: Seq<char>, v: Seq<char>) -> bool {
    &&& !v.contains('-')
    &&& version == v || (version.len() > v.len() && version.take(v.len() as int) == v
        && version[v.len() as int] == '-')
}

/// The first character at which to stop.
pub proof fn lemma_first(s: Seq<char>, stop: spec_fn(char) -> bool)
    ensures
        0 <= text::first_index(s, stop) <= s.len(),
        text::first_index(s, stop) < s.len() ==> stop(s[text::first_index(s, stop)]),
        forall|i: int| 0 <= i < text::first_index(s, stop) ==> !stop(#[trigger] s[i]),
    decreases s.len(),
{
    if s.len() > 0 && !stop(s[0]) {
        let rest = s.drop_first();
        lemma_first(rest, stop);
        assert forall|i: int| 0 <= i < text::first_index(s, stop) implies !stop(#[trigger] s[i]) by {
            if i > 0 {
                assert(rest[i - 1] == s[i]);
            }
        }
    }
}

/// What comes before the first `-` of a version.
proof fn lemma_release(version: Seq<char>, v: Seq<char>)
    ensures
        text::before_dash(version) == v <==> is_release(version, v),
{
    let stop = |c: char| c == '-';
    let n = text::first_index(version, stop);
    lemma_first(version, stop);
    let head = version.take(n);
    assert(text::before_dash(version) == head);
    if head == v {
        if v.contains('-') {
            let k = choose|k: int| 0 <= k < v.len() && v[k] == '-';
            assert(version[k] == head[k]);
            assert(stop(version[k]));
        }
        if n == version.len() {
            assert(version =~= v);
        } else {
            assert(stop(version[n]));
        }
    }
    if is_release(version, v) {
        if version == v {
            if n < version.len() {
                assert(stop(version[n]));
                assert(v.contains(v[n]));
            }
            assert(head =~= v);
        } else {
            let k = v.len() as int;
            assert(stop(version[k]));
            if n < k {
                assert(stop(version[n]));
                assert(version.take(k)[n] == version[n]);
                assert(v.contains(v[n]));
            }
            assert(n == k);
        }
    }
}

/// What a constraint on a version means: of the version `v` and another, in libalpm's order, `<v`
/// holds below it, `>v` above it, `>=v` and `<=v` are the opposites of these, and `=v` holds where
/// they are equal or where the other is a release of `v`. What holds depends on nothing but the
/// constraint and the order.
pub proof fn law_constraint(
    m: AlpmModel,
    name: Seq<char>,
    text: Seq<char>,
    v: Seq<char>,
    p: AlpmPkg,
)
    requires
        p.name@ == name,
        p.provides@.len() == 0,
    ensures
        ({
            let order = (m.vercmp)(p.version@, v);
            let lt = DependV { name, depmodver: DepModVerV::Lt(v), text };
            let le = DependV { name, depmodver: DepModVerV::Le(v), text };
            let gt = DependV { name, depmodver: DepModVerV::Gt(v), text };
            let ge = DependV { name, depmodver: DepModVerV::Ge(v), text };
            let eq = DependV { name, depmodver: DepModVerV::Eq(v), text };
            let any = DependV { name, depmodver: DepModVerV::Any, text };
            &&& p.which(m, lt, false) is Some <==> order == VerOrder::Less
            &&& p.which(m, gt, false) is Some <==> order == VerOrder::Greater
            &&& p.which(m, ge, false) is Some <==> p.which(m, lt, false) is None
            &&& p.which(m, le, false) is Some <==> p.which(m, gt, false) is None
            &&& p.which(m, eq, false) is Some <==> order == VerOrder::Equal || is_release(
                p.version@,
                v,
            )
            &&& p.which(m, any, false) is Some
        }),
{
    lemma_release(p.version@, v);
}

/// The constraint allows the version, in libalpm's order.
pub open spec fn allows(m: AlpmModel, constraint: DepModVerV, version: Seq<char>) -> bool {
    match constraint {
        DepModVerV::Any => true,
        DepModVerV::Lt(v) => (m.vercmp)(version, v) == VerOrder::Less,
        DepModVerV::Gt(v) => (m.vercmp)(version, v) == VerOrder::Greater,
        DepModVerV::Le(v) => (m.vercmp)(version, v) == VerOrder::Less || (m.vercmp)(version, v)
            == VerOrder::Equal,
        DepModVerV::Ge(v) => (m.vercmp)(version, v) == VerOrder::Greater || (m.vercmp)(version, v)
            == VerOrder::Equal,
        DepModVerV::Eq(v) => (m.vercmp)(version, v) == VerOrder::Equal || is_release(version, v),
    }
}

/// What is provided is what is asked for: by name, and where a version is asked for also by the
/// version that is provided, if one is.
pub open spec fn provides_it(m: AlpmModel, provide: DependV, dep: DependV, nover: bool) -> bool {
    &&& provide.name == dep.name
    &&& nover || dep.depmodver is Any || match provide.depmodver {
        DepModVerV::Any => false,
        DepModVerV::Lt(w) => allows(m, dep.depmodver, w),
        DepModVerV::Gt(w) => allows(m, dep.depmodver, w),
        DepModVerV::Le(w) => allows(m, dep.depmodver, w),
        DepModVerV::Ge(w) => allows(m, dep.depmodver, w),
        DepModVerV::Eq(w) => allows(m, dep.depmodver, w),
    }
}

/// A package of that name and version meets the dependency by itself, whatever it provides.
pub open spec fn is_it(
    m: AlpmModel,
    name: Seq<char>,
    version: Seq<char>,
    dep: DependV,
    nover: bool,
) -> bool {
    name == dep.name && (nover || allows(m, dep.depmodver, version))
}

/// When a constraint holds and when a provide meets it.
proof fn lemma_allows(m: AlpmModel, dep: DependV, version: Seq<char>, provide: DependV, nover: bool)
    ensures
        satisfies::ver_ok(m, dep, version) == allows(m, dep.depmodver, version),
        satisfies::provide_ok(m, dep, provide, nover) == provides_it(m, provide, dep, nover),
{
    if let DepModVerV::Eq(v) = dep.depmodver {
        lemma_release(version, v);
        if let Some(w) = satisfies::provided_version(provide) {
            lemma_release(w, v);
        }
    }
}

/// A provide meets a dependency where, and only where, it provides it.
pub proof fn law_provide(m: AlpmModel, provide: DependV, dep: DependV, nover: bool)
    ensures
        satisfies::provide_ok(m, dep, provide, nover) == provides_it(m, provide, dep, nover),
{
    lemma_allows(m, dep, dep.name, provide, nover);
}

/// A package of a database meets a dependency by its name and version, or by one of its provides,
/// and by nothing else.
pub proof fn law_alpm_pkg(m: AlpmModel, p: AlpmPkg, dep: DependV, nover: bool)
    ensures
        p.which(m, dep, nover) is Some <==> is_it(m, p.name@, p.version@, dep, nover)
            || exists|i: int|
            0 <= i < p.provides@.len() && provides_it(m, (#[trigger] p.provides@[i])@, dep, nover),
        p.which(m, dep, nover) matches Some(name) ==> name == p.name@,
{
    let provides = crate::depend::deps(p.provides@);
    lemma_allows(m, dep, p.version@, dep, nover);
    assert forall|i: int| 0 <= i < provides.len() implies #[trigger] satisfies::provide_ok(
        m,
        dep,
        provides[i],
        nover,
    ) == provides_it(m, p.provides@[i]@, dep, nover) by {
        lemma_allows(m, dep, p.version@, provides[i], nover);
    }
    if exists|i: int|
        0 <= i < p.provides@.len() && provides_it(m, (#[trigger] p.provides@[i])@, dep, nover) {
        let i = choose|i: int|
            0 <= i < p.provides@.len() && provides_it(m, (#[trigger] p.provides@[i])@, dep, nover);
        assert(satisfies::provide_ok(m, dep, provides[i], nover));
    }
}

/// An AUR package meets a dependency by its name and version, or by one of its provides, and by
/// nothing else.
pub proof fn law_aur_pkg(m: AlpmModel, p: AurPkg, dep: DependV, nover: bool)
    ensures
        p.which(m, dep, nover) is Some <==> is_it(m, p.name@, p.version@, dep, nover)
            || exists|i: int|
            0 <= i < p.provides@.len() && provides_it(
                m,
                (m.depend)((#[trigger] p.provides@[i])@),
                dep,
                nover,
            ),
        p.which(m, dep, nover) matches Some(name) ==> name == p.name@,
{
    let provides = satisfies::parsed(m, text::strs(p.provides@));
    lemma_allows(m, dep, p.version@, dep, nover);
    assert forall|i: int| 0 <= i < provides.len() implies #[trigger] satisfies::provide_ok(
        m,
        dep,
        provides[i],
        nover,
    ) == provides_it(m, (m.depend)(p.provides@[i]@), dep, nover) by {
        lemma_allows(m, dep, p.version@, provides[i], nover);
    }
    if exists|i: int|
        0 <= i < p.provides@.len() && provides_it(
            m,
            (m.depend)((#[trigger] p.provides@[i])@),
            dep,
            nover,
        ) {
        let i = choose|i: int|
            0 <= i < p.provides@.len() && provides_it(
                m,
                (m.depend)((#[trigger] p.provides@[i])@),
                dep,
                nover,
            );
        assert(satisfies::provide_ok(m, dep, provides[i], nover));
    }
}

/// The version of what a .SRCINFO builds, put together from its parts.
pub open spec fn is_version(s: Srcinfo, version: Seq<char>) -> bool {
    let rest = s.base.pkgver@ + seq!['-'] + s.base.pkgrel@;
    match s.base.epoch {
        Some(epoch) => version == epoch@ + seq![':'] + rest,
        None => version == rest,
    }
}

/// A .SRCINFO has one version.
pub proof fn law_srcinfo_version(s: Srcinfo, version: Seq<char>)
    ensures
        is_version(s, version) <==> s.full_version() == version,
{
    if let Some(epoch) = s.base.epoch {
        assert(epoch@ + seq![':'] + (s.base.pkgver@ + seq!['-'] + s.base.pkgrel@) =~= epoch@
            + seq![':'] + s.base.pkgver@ + seq!['-'] + s.base.pkgrel@);
    }
}

/// Where the values of a list of fields come from.
pub proof fn lemma_values(vs: Seq<pkg::ArchVec>, x: Seq<char>)
    ensures
        pkg::values(vs).contains(x) <==> exists|a: int, j: int|
            0 <= a < vs.len() && 0 <= j < vs[a].vec@.len() && (#[trigger] vs[a].vec@[j])@ == x,
    decreases vs.len(),
{
    if vs.len() > 0 {
        let head = text::strs(vs[0].vec@);
        let rest = vs.drop_first();
        let all = pkg::values(vs);
        lemma_values(rest, x);
        if all.contains(x) {
            let k = choose|k: int| 0 <= k < all.len() && all[k] == x;
            if k < head.len() {
                assert(vs[0].vec@[k]@ == x);
            } else {
                assert(pkg::values(rest)[k - head.len()] == x);
                let (a, j) = choose|a: int, j: int|
                    0 <= a < rest.len() && 0 <= j < rest[a].vec@.len() && (
                    #[trigger] rest[a].vec@[j])@ == x;
                assert(vs[a + 1].vec@[j]@ == x);
            }
        }
        if exists|a: int, j: int|
            0 <= a < vs.len() && 0 <= j < vs[a].vec@.len() && (#[trigger] vs[a].vec@[j])@ == x {
            let (a, j) = choose|a: int, j: int|
                0 <= a < vs.len() && 0 <= j < vs[a].vec@.len() && (#[trigger] vs[a].vec@[j])@ == x;
            if a == 0 {
                assert(all[j] == x);
            } else {
                assert(rest[a - 1].vec@[j]@ == x);
                let k = choose|k: int| 0 <= k < pkg::values(rest).len() && pkg::values(rest)[k] == x;
                assert(all[head.len() + k] == x);
            }
        }
    }
}

/// The field is for every architecture or for the given one.
pub open spec fn applies(f: pkg::ArchVec, arch: Option<Seq<char>>) -> bool {
    match f.arch {
        None => true,
        Some(a) => arch == Some(a@),
    }
}

/// Where the values of a list of fields come from under an architecture.
pub proof fn lemma_active(vs: Seq<pkg::ArchVec>, arch: Option<Seq<char>>, x: Seq<char>)
    ensures
        pkg::active(vs, arch).contains(x) <==> exists|a: int, j: int|
            0 <= a < vs.len() && applies(vs[a], arch) && 0 <= j < vs[a].vec@.len() && (
            #[trigger] vs[a].vec@[j])@ == x,
    decreases vs.len(),
{
    if vs.len() > 0 {
        let head = if applies(vs[0], arch) {
            text::strs(vs[0].vec@)
        } else {
            Seq::empty()
        };
        let rest = vs.drop_first();
        let all = pkg::active(vs, arch);
        assert(all == head + pkg::active(rest, arch));
        lemma_active(rest, arch, x);
        if all.contains(x) {
            let k = choose|k: int| 0 <= k < all.len() && all[k] == x;
            if k < head.len() {
                assert(vs[0].vec@[k]@ == x);
            } else {
                assert(pkg::active(rest, arch)[k - head.len()] == x);
                let (a, j) = choose|a: int, j: int|
                    0 <= a < rest.len() && applies(rest[a], arch) && 0 <= j < rest[a].vec@.len()
                        && (#[trigger] rest[a].vec@[j])@ == x;
                assert(vs[a + 1].vec@[j]@ == x);
            }
        }
        if exists|a: int, j: int|
            0 <= a < vs.len() && applies(vs[a], arch) && 0 <= j < vs[a].vec@.len() && (
            #[trigger] vs[a].vec@[j])@ == x {
            let (a, j) = choose|a: int, j: int|
                0 <= a < vs.len() && applies(vs[a], arch) && 0 <= j < vs[a].vec@.len() && (
                #[trigger] vs[a].vec@[j])@ == x;
            if a == 0 {
                assert(all[j] == x);
            } else {
                assert(rest[a - 1].vec@[j]@ == x);
                let k = choose|k: int|
                    0 <= k < pkg::active(rest, arch).len() && pkg::active(rest, arch)[k] == x;
                assert(all[head.len() + k] == x);
            }
        }
    }
}

/// A package of a .SRCINFO meets a dependency by its name and the version of the .SRCINFO, or by one
/// of its provides, for whatever architecture, and by nothing else.
pub proof fn law_srcinfo_pkg(
    m: AlpmModel,
    s: &Srcinfo,
    p: &SrcinfoPkg,
    version: Seq<char>,
    dep: DependV,
    nover: bool,
)
    requires
        is_version(*s, version),
    ensures
        (s, p).which(m, dep, nover) is Some <==> is_it(m, p.pkgname@, version, dep, nover)
            || exists|a: int, j: int|
            0 <= a < p.provides@.len() && 0 <= j < p.provides@[a].vec@.len() && provides_it(
                m,
                (m.depend)((#[trigger] p.provides@[a].vec@[j])@),
                dep,
                nover,
            ),
        (s, p).which(m, dep, nover) matches Some(name) ==> name == p.pkgname@,
{
    let names = pkg::values(p.provides@);
    let provides = satisfies::parsed(m, names);
    law_srcinfo_version(*s, version);
    lemma_allows(m, dep, version, dep, nover);
    assert forall|i: int| 0 <= i < provides.len() implies #[trigger] satisfies::provide_ok(
        m,
        dep,
        provides[i],
        nover,
    ) == provides_it(m, (m.depend)(names[i]), dep, nover) by {
        lemma_allows(m, dep, version, provides[i], nover);
    }
    if exists|i: int|
        0 <= i < provides.len() && #[trigger] satisfies::provide_ok(m, dep, provides[i], nover) {
        let i = choose|i: int|
            0 <= i < provides.len() && #[trigger] satisfies::provide_ok(m, dep, provides[i], nover);
        assert(names.contains(names[i]));
        lemma_values(p.provides@, names[i]);
    }
    if exists|a: int, j: int|
        0 <= a < p.provides@.len() && 0 <= j < p.provides@[a].vec@.len() && provides_it(
            m,
            (m.depend)((#[trigger] p.provides@[a].vec@[j])@),
            dep,
            nover,
        ) {
        let (a, j) = choose|a: int, j: int|
            0 <= a < p.provides@.len() && 0 <= j < p.provides@[a].vec@.len() && provides_it(
                m,
                (m.depend)((#[trigger] p.provides@[a].vec@[j])@),
                dep,
                nover,
            );
        let x = p.provides@[a].vec@[j]@;
        lemma_values(p.provides@, x);
        let i = choose|i: int| 0 <= i < names.len() && names[i] == x;
        assert(satisfies::provide_ok(m, dep, provides[i], nover));
    }
}

/// Whatever the source of a package, it meets the same dependencies: those of its name, version and
/// provides.
pub proof fn law_alike(
    m: AlpmModel,
    a: AurPkg,
    p: AlpmPkg,
    s: &Srcinfo,
    q: &SrcinfoPkg,
    dep: DependV,
    nover: bool,
)
    requires
        a.name@ == p.name@,
        a.version@ == p.version@,
        a.provides@.len() == 0,
        p.provides@.len() == 0,
    ensures
        a.which(m, dep, nover) == p.which(m, dep, nover),
        q.pkgname@ == p.name@ && is_version(*s, p.version@) && q.provides@.len() == 0 ==> (
        s,
        q,
    ).which(m, dep, nover) == p.which(m, dep, nover),
{
    law_aur_pkg(m, a, dep, nover);
    law_alpm_pkg(m, p, dep, nover);
    if is_version(*s, p.version@) {
        law_srcinfo_pkg(m, s, q, p.version@, dep, nover);
    }
}

/// A .SRCINFO meets a dependency where one of its packages does, and by the first that does.
pub proof fn law_srcinfo(m: AlpmModel, s: &Srcinfo, dep: DependV, nover: bool)
    ensures
        s.which(m, dep, nover) is Some <==> exists|i: int|
            0 <= i < s.pkgs@.len() && (s, &(#[trigger] s.pkgs@[i])).which(m, dep, nover) is Some,
        s.which(m, dep, nover) matches Some(name) ==> exists|i: int|
            0 <= i < s.pkgs@.len() && (#[trigger] s.pkgs@[i]).pkgname@ == name && (
            s,
            &s.pkgs@[i],
        ).which(m, dep, nover) is Some && forall|j: int|
                0 <= j < i ==> (s, &(#[trigger] s.pkgs@[j])).which(m, dep, nover) is None,
{
    lemma_srcinfo_from(m, s, 0, dep, nover);
    assert(s.pkgs@.skip(0) =~= s.pkgs@);
    satisfies::lemma_srcinfo_index(m, *s, s.pkgs@, dep, nover);
    let i = satisfies::srcinfo_index(m, *s, s.pkgs@, dep, nover);
    if i < s.pkgs@.len() {
        assert((s, &s.pkgs@[i]).which(m, dep, nover) is Some);
        assert(s.pkgs@[i].pkgname@ == s.which(m, dep, nover)->0);
    }
}

/// The first package from a place on that meets a dependency.
proof fn lemma_srcinfo_from(m: AlpmModel, s: &Srcinfo, from: int, dep: DependV, nover: bool)
    requires
        0 <= from <= s.pkgs@.len(),
    ensures
        ({
            let i = from + satisfies::srcinfo_index(m, *s, s.pkgs@.skip(from), dep, nover);
            &&& from <= i <= s.pkgs@.len()
            &&& i < s.pkgs@.len() ==> (s, &s.pkgs@[i]).which(m, dep, nover) is Some
            &&& forall|j: int|
                from <= j < i ==> (s, &(#[trigger] s.pkgs@[j])).which(m, dep, nover) is None
        }),
    decreases s.pkgs@.len() - from,
{
    let rest = s.pkgs@.skip(from);
    if rest.len() > 0 {
        assert(rest[0] == s.pkgs@[from]);
        if !satisfies::srcinfo_ok(m, *s, rest[0], dep, nover) {
            assert(rest.drop_first() =~= s.pkgs@.skip(from + 1));
            lemma_srcinfo_from(m, s, from + 1, dep, nover);
        }
    }
}

} // verus!
