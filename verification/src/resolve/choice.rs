//! What is picked meets what it is picked for.
use std::sync::Arc;
use vstd::prelude::*;
use crate::cache;
use crate::cb;
use crate::depend::DependV;
use crate::model;
use crate::model::Env;
use crate::pkg;
use crate::pkg::{AurPkg, PkgbuildRepo, Srcinfo};
use crate::satisfies;
use crate::satisfies::Satisfies;
use crate::seqs;
use crate::text;

verus! {

/// The provider callback picks one of the names it is given.
pub open spec fn picks_offered(env: Env<'_>) -> bool {
    env.provider matches Some(f) ==> cb::in_range(f)
}

/// A name that is looked up among packages with distinct names.
proof fn lemma_lookup(c: Seq<Arc<AurPkg>>, p: Arc<AurPkg>)
    requires
        cache::distinct(c),
        c.contains(p),
    ensures
        cache::lookup(c, p.name@) == Some(p),
{
    let k = choose|k: int| 0 <= k < c.len() && c[k] == p;
    let named = cache::named(p.name@);
    seqs::lemma_first(c, named);
    let f = seqs::first_at(c, named);
    assert(named(c[k]));
    assert(f <= k) by {
        if f > k {
            assert(!named(c[k]));
        }
    }
    if f < k {
        assert(c[f].name@ == c[k].name@);
    }
}

/// The candidates are the names of the packages that meet the dependency.
proof fn lemma_candidates<'a>(env: Env<'a>, dep: DependV, name: Seq<char>)
    requires
        cache::distinct(env.cache),
    ensures
        env.candidates(dep).contains(name) ==> cache::lookup(env.cache, name) is Some
            && env.aur_sat(dep)(cache::lookup(env.cache, name)->0),
        env.candidates(dep).len() == 0 <==> !seqs::any(env.cache, env.aur_sat(dep)),
{
    let p = env.aur_sat(dep);
    let met = env.cache.filter(p);
    let names = env.candidates(dep);
    if names.contains(name) {
        let k = choose|k: int| 0 <= k < names.len() && names[k] == name;
        seqs::lemma_filter_contains(env.cache, p, met[k]);
        assert(met.contains(met[k]));
        lemma_lookup(env.cache, met[k]);
    }
    if seqs::any(env.cache, p) {
        let i = choose|i: int| 0 <= i < env.cache.len() && p(#[trigger] env.cache[i]);
        seqs::lemma_filter_contains(env.cache, p, env.cache[i]);
        assert(met.contains(env.cache[i]));
    }
    if names.len() > 0 {
        seqs::lemma_filter_contains(env.cache, p, met[0]);
        assert(met.contains(met[0]));
        let i = choose|i: int| 0 <= i < env.cache.len() && env.cache[i] == met[0];
        assert(p(env.cache[i]));
    }
}

/// What is offered are the candidates.
proof fn lemma_offered(names: Seq<Seq<char>>, name: Seq<char>, k: int)
    requires
        0 <= k < names.len(),
    ensures
        model::offered(names, name).len() == names.len(),
        names.contains(model::offered(names, name)[k]),
{
    let p = model::is_name(name);
    let at = seqs::first_at(names, p);
    seqs::lemma_first(names, p);
    let offer = model::offered(names, name);
    if at < names.len() {
        let rest = names.remove(at);
        text::lemma_sorted(rest);
        assert(names[at] == name);
        if k > 0 {
            let x = text::sorted(rest)[k - 1];
            assert(offer[k] == x);
            lemma_in_sorted(rest, k - 1);
            let i = choose|i: int| 0 <= i < rest.len() && rest[i] == x;
            if i < at {
                assert(names[i] == x);
            } else {
                assert(names[i + 1] == x);
            }
        }
    } else {
        text::lemma_sorted(names);
        lemma_in_sorted(names, k);
    }
}

/// Sorting keeps the elements.
proof fn lemma_in_sorted(s: Seq<Seq<char>>, k: int)
    requires
        0 <= k < text::sorted(s).len(),
    ensures
        s.contains(text::sorted(s)[k]),
{
    broadcast use vstd::seq_lib::group_to_multiset_ensures;

    let x = text::sorted(s)[k];
    text::lemma_sorted(s);
    assert(text::sorted(s).contains(x));
    assert(text::sorted(s).to_multiset().count(x) > 0);
    assert(s.to_multiset().count(x) > 0);
}

/// The AUR package that is picked meets the dependency, and one is picked wherever one meets it.
pub proof fn law_select<'a>(env: Env<'a>, dep: DependV, target: bool)
    requires
        cache::distinct(env.cache),
        env.asks(dep, target) ==> picks_offered(env),
    ensures
        env.select_aur(dep, target) matches Some(p) ==> satisfies::aur_ok(
            env.m,
            *p,
            dep,
            env.nover(),
        ),
        env.select_aur(dep, target) is None <==> !seqs::any(env.cache, env.aur_sat(dep)),
{
    let c = env.cache;
    seqs::lemma_first(c, env.aur_sat(dep));
    seqs::lemma_first(c, env.aur_sat_installed(dep));
    if seqs::first(c, env.aur_sat_installed(dep)) is Some {
        let i = seqs::first_at(c, env.aur_sat_installed(dep));
        assert(env.aur_sat(dep)(c[i]));
    }
    if let Some(p) = cache::lookup(c, dep.name) {
        let i = seqs::first_at(c, cache::named(dep.name));
        seqs::lemma_first(c, cache::named(dep.name));
        if env.aur_sat(dep)(p) {
            assert(env.aur_sat(dep)(c[i]));
        }
    }
    if let Some(f) = env.provider {
        let names = env.candidates(dep);
        seqs::lemma_first(names, env.installed());
        assert forall|name: Seq<char>| #[trigger] names.contains(name) implies cache::lookup(
            c,
            name,
        ) is Some && env.aur_sat(dep)(cache::lookup(c, name)->0) by {
            lemma_candidates(env, dep, name);
        }
        lemma_candidates(env, dep, dep.name);
        if seqs::first(names, env.installed()) is Some {
            let k = seqs::first_at(names, env.installed());
            assert(names.contains(names[k]));
        }
        if names.len() > 0 {
            assert(names.contains(names[0]));
        }
        if env.asks(dep, target) {
            let offer = model::offered(names, dep.name);
            lemma_offered(names, dep.name, 0);
            let k = f(dep.text, offer);
            lemma_offered(names, dep.name, k);
            assert(names.contains(offer[k]));
        }
    }
}

/// Whatever package is picked of those that are offered for a dependency, it meets the dependency.
pub proof fn law_offered<'a>(env: Env<'a>, dep: DependV, k: int)
    requires
        cache::distinct(env.cache),
        0 <= k < env.candidates(dep).len(),
    ensures
        ({
            let offer = env.offer(dep);
            &&& offer.len() == env.candidates(dep).len()
            &&& cache::lookup(env.cache, offer[k]) matches Some(p) && satisfies::aur_ok(
                env.m,
                *p,
                dep,
                env.nover(),
            )
        }),
        seqs::any(env.cache, env.aur_sat(dep)),
{
    let names = env.candidates(dep);
    lemma_offered(names, dep.name, k);
    lemma_candidates(env, dep, model::offered(names, dep.name)[k]);
}

/// The provider callback is called any time there is a choice: where more than one package meets
/// the dependency, and none that is installed is to be preferred, it is asked about all of them and
/// what it says is picked.
pub proof fn law_asked<'a>(env: Env<'a>, dep: DependV, target: bool)
    requires
        cache::distinct(env.cache),
        picks_offered(env),
        env.candidates(dep).len() > 1,
        target || !seqs::any(env.candidates(dep), env.installed()),
    ensures
        env.provider matches Some(f) ==> {
            let offer = env.offer(dep);
            &&& offer.to_multiset() == env.candidates(dep).to_multiset()
            &&& env.select_aur(dep, target) matches Some(p) && p.name@ == offer[f(dep.text, offer)]
        },
{
    broadcast use vstd::seq_lib::group_to_multiset_ensures;

    let names = env.candidates(dep);
    let is_dep = model::is_name(dep.name);
    let at = seqs::first_at(names, is_dep);
    seqs::lemma_first(names, is_dep);
    seqs::lemma_first(names, env.installed());
    if let Some(f) = env.provider {
        let offer = model::offered(names, dep.name);
        if at < names.len() {
            let rest = names.remove(at);
            text::lemma_sorted(rest);
            assert(names[at] == dep.name);
            assert(names =~= rest.insert(at, dep.name));
            assert(rest.to_multiset() =~= names.to_multiset().remove(dep.name));
            assert((seq![dep.name] + text::sorted(rest)) =~= text::sorted(rest).insert(0, dep.name));
            assert(offer.to_multiset() =~= names.to_multiset());
        } else {
            text::lemma_sorted(names);
        }
        lemma_offered(names, dep.name, 0);
        let k = f(dep.text, offer);
        lemma_offered(names, dep.name, k);
        lemma_candidates(env, dep, offer[k]);
        seqs::lemma_first(env.cache, cache::named(offer[k]));
    }
}

/// The packages of the .SRCINFO have distinct names.
pub open spec fn distinct_pkgs(s: Srcinfo) -> bool {
    forall|i: int, j: int|
        0 <= i < j < s.pkgs@.len() ==> (#[trigger] s.pkgs@[i]).pkgname@ != (
        #[trigger] s.pkgs@[j]).pkgname@
}

/// The packages of each .SRCINFO of the repos have distinct names.
pub open spec fn distinct_repos<'a>(repos: Seq<PkgbuildRepo<'a>>) -> bool {
    forall|r: int, k: int|
        0 <= r < repos.len() && 0 <= k < repos[r].pkgs@.len() ==> distinct_pkgs(
            *(#[trigger] repos[r].pkgs@[k]),
        )
}

/// The .SRCINFO is in one of the repos.
pub open spec fn in_repos<'a>(repos: Seq<PkgbuildRepo<'a>>, s: &'a Srcinfo) -> bool {
    exists|r: int| 0 <= r < repos.len() && (#[trigger] repos[r]).pkgs@.contains(s)
}

/// No two .SRCINFO files of the repos are of bases with the same name.
pub open spec fn distinct_bases<'a>(repos: Seq<PkgbuildRepo<'a>>) -> bool {
    forall|s: &'a Srcinfo, t: &'a Srcinfo| #[trigger]
        in_repos(repos, s) && #[trigger] in_repos(repos, t) && s.base.pkgbase@ == t.base.pkgbase@
            ==> s == t
}

/// Names are not ambiguous: packages in the cache and in each .SRCINFO have distinct names, and so
/// have the bases of the repos, and the provider callback picks one of the names it is given.
pub open spec fn unambiguous<'a>(env: Env<'a>) -> bool {
    &&& cache::distinct(env.cache)
    &&& distinct_repos(env.repos)
    &&& distinct_bases(env.repos)
    &&& picks_offered(env)
}

/// The first package that meets a dependency meets it.
proof fn lemma_srcinfo_index<'a>(env: Env<'a>, s: Srcinfo, i: int, dep: DependV)
    requires
        0 <= i <= s.pkgs@.len(),
        satisfies::srcinfo_index(env.m, s, s.pkgs@.skip(i), dep, env.nover()) < s.pkgs@.len() - i,
    ensures
        satisfies::srcinfo_ok(
            env.m,
            s,
            s.pkgs@[i + satisfies::srcinfo_index(env.m, s, s.pkgs@.skip(i), dep, env.nover())],
            dep,
            env.nover(),
        ),
    decreases s.pkgs@.len() - i,
{
    let rest = s.pkgs@.skip(i);
    satisfies::lemma_srcinfo_index(env.m, s, rest, dep, env.nover());
    if rest.len() > 0 && !satisfies::srcinfo_ok(env.m, s, rest[0], dep, env.nover()) {
        assert(rest.drop_first() =~= s.pkgs@.skip(i + 1));
        lemma_srcinfo_index(env, s, i + 1, dep);
    }
}

/// The package of a pkgbuild repo that is picked meets the dependency, and one is picked wherever
/// a .SRCINFO has one.
pub proof fn law_pkgbuild_dep<'a>(
    env: Env<'a>,
    repos: Seq<PkgbuildRepo<'a>>,
    repo: Option<Seq<char>>,
    dep: DependV,
)
    requires
        distinct_repos(repos),
    ensures
        env.pkgbuild_dep_in(repos, repo, dep) matches Some(f) ==> satisfies::srcinfo_ok(
            env.m,
            *f.1,
            *f.2,
            dep,
            env.nover(),
        ),
        env.pkgbuild_dep_in(repos, repo, dep) is None ==> forall|r: int, k: int|
            0 <= r < repos.len() && 0 <= k < repos[r].pkgs@.len() && (repo is None || repo == Some(
                repos[r].name@,
            )) ==> (#[trigger] repos[r].pkgs@[k]).which(env.m, dep, env.nover()) is None,
    decreases repos.len(),
{
    if repos.len() > 0 {
        let pkgs = repos[0].pkgs@;
        let holds = env.srcinfo_has(dep);
        seqs::lemma_first(pkgs, holds);
        if (repo is None || repo == Some(repos[0].name@)) && env.srcinfo_dep(pkgs, dep) is Some {
            let k = seqs::first_at(pkgs, holds);
            let s = pkgs[k];
            assert(distinct_pkgs(*repos[0].pkgs@[k]));
            assert(s.pkgs@.skip(0) =~= s.pkgs@);
            let i = satisfies::srcinfo_index(env.m, *s, s.pkgs@, dep, env.nover());
            satisfies::lemma_srcinfo_index(env.m, *s, s.pkgs@, dep, env.nover());
            lemma_srcinfo_index(env, *s, 0, dep);
            pkg::lemma_pkg_index(s.pkgs@, i);
            let j = s.pkg_index(s.pkgs@[i].pkgname@);
            lemma_pkg_named(s.pkgs@, s.pkgs@[i].pkgname@);
            if j < i {
                assert(s.pkgs@[j].pkgname@ != s.pkgs@[i].pkgname@);
            }
        } else {
            let rest = repos.drop_first();
            assert forall|r: int, k: int|
                0 <= r < rest.len() && 0 <= k < rest[r].pkgs@.len() implies distinct_pkgs(
                *(#[trigger] rest[r].pkgs@[k]),
            ) by {
                assert(distinct_pkgs(*repos[r + 1].pkgs@[k]));
            }
            law_pkgbuild_dep(env, rest, repo, dep);
            if env.pkgbuild_dep_in(repos, repo, dep) is None {
                assert forall|r: int, k: int|
                    0 <= r < repos.len() && 0 <= k < repos[r].pkgs@.len() && (repo is None || repo
                        == Some(repos[r].name@)) implies (#[trigger] repos[r].pkgs@[k]).which(
                    env.m,
                    dep,
                    env.nover(),
                ) is None by {
                    if r == 0 {
                        assert(!holds(pkgs[k]));
                    } else {
                        assert(rest[r - 1].pkgs@[k].which(env.m, dep, env.nover()) is None);
                    }
                }
            }
        }
    }
}

/// The package at the position of a name has the name.
proof fn lemma_pkg_named(pkgs: Seq<pkg::SrcinfoPkg>, name: Seq<char>)
    requires
        pkg::pkg_index_from(pkgs, name) < pkgs.len(),
    ensures
        0 <= pkg::pkg_index_from(pkgs, name),
        pkgs[pkg::pkg_index_from(pkgs, name)].pkgname@ == name,
    decreases pkgs.len(),
{
    if pkgs.len() > 0 && pkgs[0].pkgname@ != name {
        lemma_pkg_named(pkgs.drop_first(), name);
    }
}

} // verus!
