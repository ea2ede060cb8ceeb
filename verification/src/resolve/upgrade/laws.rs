//! Which updates are found, stated over versions and what there is.
use std::sync::Arc;
use vstd::prelude::*;
use crate::alpm::AlpmPkg;
use crate::cache;
use crate::depend::VerOrder;
use crate::flags::Flags;
use crate::model;
use crate::model::laws as found;
use crate::model::Env;
use crate::pkg::AurPkg;
use crate::resolve::upgrade;
use crate::resolve::upgrade::{AurUpdate, PkgbuildUpdateV};
use crate::satisfies::laws::is_version;
use crate::satisfies::laws;
use crate::seqs;

verus! {

/// The order of the versions calls for an update: the other version is newer, or, where downgrades
/// are enabled, older.
pub open spec fn calls_for<'a>(env: Env<'a>, order: VerOrder) -> bool {
    match order {
        VerOrder::Greater => true,
        VerOrder::Equal => false,
        VerOrder::Less => env.flags.has(Flags::ENABLE_DOWNGRADE),
    }
}

/// What comes of the elements that pass.
proof fn lemma_map<T, U>(s: Seq<T>, p: spec_fn(T) -> bool, f: spec_fn(T) -> U, u: U)
    ensures
        s.filter(p).map_values(f).contains(u) <==> exists|i: int|
            0 <= i < s.len() && p(#[trigger] s[i]) && f(s[i]) == u,
{
    let t = s.filter(p);
    let m = t.map_values(f);
    if m.contains(u) {
        let k = choose|k: int| 0 <= k < m.len() && m[k] == u;
        assert(t.contains(t[k]));
        seqs::lemma_filter_contains(s, p, t[k]);
        let i = choose|i: int| 0 <= i < s.len() && s[i] == t[k];
        assert(p(s[i]) && f(s[i]) == u);
    }
    if exists|i: int| 0 <= i < s.len() && p(#[trigger] s[i]) && f(s[i]) == u {
        let i = choose|i: int| 0 <= i < s.len() && p(#[trigger] s[i]) && f(s[i]) == u;
        assert(s.contains(s[i]));
        seqs::lemma_filter_contains(s, p, s[i]);
        let k = choose|k: int| 0 <= k < t.len() && t[k] == s[i];
        assert(m[k] == u);
    }
}

/// The update is from the first pkgbuild with the name of the installed package.
pub open spec fn from_repos<'a>(env: Env<'a>, u: PkgbuildUpdateV<'a>) -> bool {
    let name = u.local.name@;
    exists|r: int|
        0 <= r < env.repos.len() && (#[trigger] env.repos[r]).name@ == u.repo
            && found::is_first_srcinfo(env.repos[r], u.remote_srcinfo, name) && found::is_first_pkg(
            *u.remote_srcinfo,
            *u.remote_pkg,
            name,
        ) && forall|q: int| 0 <= q < r ==> found::repo_lacks(#[trigger] env.repos[q], name)
}

/// The update is right: it is for one of the packages, which is ignored or not as told, it is from the
/// first pkgbuild of its name, and the order of the versions calls for it.
pub open spec fn pkgbuild_right<'a>(
    env: Env<'a>,
    targs: Seq<&'a AlpmPkg>,
    ignored: bool,
    u: PkgbuildUpdateV<'a>,
) -> bool {
    &&& targs.contains(u.local)
    &&& u.local.ignore == ignored
    &&& from_repos(env, u)
    &&& exists|v: Seq<char>| #[trigger]
        is_version(*u.remote_srcinfo, v) && calls_for(env, (env.m.vercmp)(v, u.local.version@))
}

/// The update is right: it is for one of the packages, which is ignored or not as told, it is from the
/// AUR package of its name, and the order of the versions calls for it.
pub open spec fn aur_right<'a>(
    env: Env<'a>,
    targs: Seq<&'a AlpmPkg>,
    ignored: bool,
    u: AurUpdate<'a>,
) -> bool {
    &&& targs.contains(u.local)
    &&& u.local.ignore == ignored
    &&& env.cache.contains(u.remote)
    &&& u.remote.name@ == u.local.name@
    &&& calls_for(env, (env.m.vercmp)(u.remote.version@, u.local.version@))
}

/// The updates that are found are right.
pub proof fn law_updates_right<'a>(
    env: Env<'a>,
    pkgbuilds: Seq<&'a AlpmPkg>,
    aur: Seq<&'a AlpmPkg>,
    ignored: bool,
    i: int,
)
    requires
        forall|i: int| 0 <= i < pkgbuilds.len() ==> env.has_pkgbuild()(#[trigger] pkgbuilds[i]),
    ensures
        ({
            let us = pkgbuilds.filter(env.pkgbuild_updates(ignored)).map_values(
                env.pkgbuild_update(),
            );
            0 <= i < us.len() ==> pkgbuild_right(env, pkgbuilds, ignored, us[i])
        }),
        ({
            let us = aur.filter(env.aur_updates(ignored)).map_values(env.aur_update());
            0 <= i < us.len() ==> aur_right(env, aur, ignored, us[i])
        }),
{
    let us = pkgbuilds.filter(env.pkgbuild_updates(ignored)).map_values(env.pkgbuild_update());
    if 0 <= i < us.len() {
        let u = us[i];
        assert(us.contains(u));
        let v = u.remote_srcinfo.full_version();
        laws::law_srcinfo_version(*u.remote_srcinfo, v);
        law_pkgbuild_updates(env, pkgbuilds, ignored, u.local, u, v);
        assert(is_version(*u.remote_srcinfo, v));
    }
    let vs = aur.filter(env.aur_updates(ignored)).map_values(env.aur_update());
    if 0 <= i < vs.len() {
        let u = vs[i];
        assert(vs.contains(u));
        lemma_map(aur, env.aur_updates(ignored), env.aur_update(), u);
        let k = choose|k: int|
            0 <= k < aur.len() && env.aur_updates(ignored)(#[trigger] aur[k]) && env.aur_update()(
                aur[k],
            ) == u;
        assert(aur.contains(aur[k]));
        found::law_cached(env.cache, u.local.name@);
    }
}

/// An update from a pkgbuild repo is found for a package, and put with those that are ignored or with
/// the others as the package says, where, and only where, the order of the versions calls for it.
/// Without ENABLE_DOWNGRADE that is where the pkgbuild is newer.
pub proof fn law_pkgbuild_updates<'a>(
    env: Env<'a>,
    targs: Seq<&'a AlpmPkg>,
    ignored: bool,
    p: &'a AlpmPkg,
    u: PkgbuildUpdateV<'a>,
    version: Seq<char>,
)
    requires
        forall|i: int| 0 <= i < targs.len() ==> env.has_pkgbuild()(#[trigger] targs[i]),
    ensures
        ({
            let updates = targs.filter(env.pkgbuild_updates(ignored)).map_values(
                env.pkgbuild_update(),
            );
            &&& updates.contains(u) && is_version(*u.remote_srcinfo, version) ==> {
                let order = (env.m.vercmp)(version, u.local.version@);
                &&& targs.contains(u.local)
                &&& u.local.ignore == ignored
                &&& from_repos(env, u)
                &&& order != VerOrder::Equal
                &&& !env.flags.has(Flags::ENABLE_DOWNGRADE) ==> order == VerOrder::Greater
            }
            &&& targs.contains(p) && p.ignore == ignored ==> {
                let v = env.pkgbuild_update()(p);
                &&& v.local == p
                &&& from_repos(env, v)
                &&& is_version(*v.remote_srcinfo, version) && calls_for(
                    env,
                    (env.m.vercmp)(version, p.version@),
                ) ==> updates.contains(v)
            }
        }),
{
    let f = env.pkgbuild_update();
    let h = env.pkgbuild_updates(ignored);
    lemma_map(targs, h, f, u);
    assert forall|i: int| 0 <= i < targs.len() implies from_repos(env, f(#[trigger] targs[i])) by {
        assert(env.has_pkgbuild()(targs[i]));
        found::law_pkgbuild_named(env.repos, targs[i].name@);
    }
    let updates = targs.filter(h).map_values(f);
    if updates.contains(u) {
        let i = choose|i: int| 0 <= i < targs.len() && h(#[trigger] targs[i]) && f(targs[i]) == u;
        laws::law_srcinfo_version(*u.remote_srcinfo, version);
        assert(targs.contains(targs[i]));
        assert(from_repos(env, f(targs[i])));
    }
    if targs.contains(p) {
        let i = choose|i: int| 0 <= i < targs.len() && targs[i] == p;
        let v = f(targs[i]);
        lemma_map(targs, h, f, v);
        laws::law_srcinfo_version(*v.remote_srcinfo, version);
        assert(from_repos(env, f(targs[i])));
        if p.ignore == ignored && is_version(*v.remote_srcinfo, version) && calls_for(
            env,
            (env.m.vercmp)(version, p.version@),
        ) {
            assert(h(targs[i]));
        }
    }
}

/// An update from the AUR is found for a package, and put with those that are ignored or with the
/// others as the package says, where, and only where, the AUR has a package of the name and the order
/// of the versions calls for it.
pub proof fn law_aur_updates<'a>(
    env: Env<'a>,
    targs: Seq<&'a AlpmPkg>,
    ignored: bool,
    p: &'a AlpmPkg,
    remote: Arc<AurPkg>,
    k: int,
)
    requires
        0 <= k < env.cache.len(),
        cache::distinct(env.cache),
    ensures
        ({
            let updates = targs.filter(env.aur_updates(ignored)).map_values(env.aur_update());
            let order = (env.m.vercmp)(remote.version@, p.version@);
            &&& updates.contains(AurUpdate { local: p, remote }) ==> {
                &&& targs.contains(p)
                &&& p.ignore == ignored
                &&& env.cache.contains(remote)
                &&& remote.name@ == p.name@
                &&& order != VerOrder::Equal
                &&& !env.flags.has(Flags::ENABLE_DOWNGRADE) ==> order == VerOrder::Greater
            }
            &&& targs.contains(p) && p.ignore == ignored && env.cache[k].name@ == p.name@
                && calls_for(env, (env.m.vercmp)(env.cache[k].version@, p.version@))
                ==> updates.contains(AurUpdate { local: p, remote: env.cache[k] })
        }),
{
    let f = env.aur_update();
    let h = env.aur_updates(ignored);
    let u = AurUpdate { local: p, remote };
    let v = AurUpdate { local: p, remote: env.cache[k] };
    let updates = targs.filter(h).map_values(f);
    lemma_map(targs, h, f, u);
    lemma_map(targs, h, f, v);
    found::law_cached(env.cache, p.name@);
    if updates.contains(u) {
        let i = choose|i: int| 0 <= i < targs.len() && h(#[trigger] targs[i]) && f(targs[i]) == u;
        assert(targs.contains(targs[i]));
    }
    if targs.contains(p) && p.ignore == ignored && env.cache[k].name@ == p.name@ && calls_for(
        env,
        (env.m.vercmp)(env.cache[k].version@, p.version@),
    ) {
        let i = choose|i: int| 0 <= i < targs.len() && targs[i] == p;
        let c = cache::lookup(env.cache, p.name@)->0;
        let j = choose|j: int| 0 <= j < env.cache.len() && env.cache[j] == c && c.name@ == p.name@;
        if j != k {
            assert(env.cache[j].name@ == env.cache[k].name@);
        }
        assert(h(targs[i]) && f(targs[i]) == v);
    }
}

/// A package that is looked for in the AUR is missing where, and only where, the AUR has none of its
/// name.
pub proof fn law_not_in_aur<'a>(env: Env<'a>, targs: Seq<&'a AlpmPkg>, p: &'a AlpmPkg)
    ensures
        targs.filter(env.not_in_aur()).contains(p) <==> targs.contains(p) && forall|i: int|
            0 <= i < env.cache.len() ==> (#[trigger] env.cache[i]).name@ != p.name@,
{
    found::law_cached(env.cache, p.name@);
    seqs::lemma_filter_contains(targs, env.not_in_aur(), p);
}

/// Updates are looked for for the installed packages whose name no sync package has, or, with the
/// names of sync databases, for the packages of those databases.
pub proof fn law_update_targs<'a>(
    env: Env<'a>,
    names: Seq<Seq<char>>,
    p: &'a AlpmPkg,
)
    ensures
        ({
            let local = env.m.system.localdb@;
            let dbs = env.m.system.syncdbs@;
            &&& env.update_targs(None).contains(p) <==> (exists|i: int|
                0 <= i < local.len() && &(#[trigger] local[i]) == p) && forall|d: int, k: int|
                0 <= d < dbs.len() && 0 <= k < dbs[d].pkgs@.len() ==> (
                #[trigger] dbs[d].pkgs@[k]).name@ != p.name@
            &&& env.update_targs(Some(names)).contains(p) <==> exists|d: int, k: int|
                0 <= d < dbs.len() && names.contains(dbs[d].name@) && 0 <= k < dbs[d].pkgs@.len()
                    && &(#[trigger] dbs[d].pkgs@[k]) == p
        }),
{
    let local = env.m.system.localdb@;
    let dbs = env.m.system.syncdbs@;
    let all = upgrade::refs::<'a>(local);
    seqs::lemma_filter_contains(all, env.foreign(), p);
    assert(all.contains(p) <==> exists|i: int| 0 <= i < local.len() && &(#[trigger] local[i]) == p)
        by {
        if all.contains(p) {
            let i = choose|i: int| 0 <= i < all.len() && all[i] == p;
            assert(&local[i] == p);
        }
        if exists|i: int| 0 <= i < local.len() && &(#[trigger] local[i]) == p {
            let i = choose|i: int| 0 <= i < local.len() && &(#[trigger] local[i]) == p;
            assert(all[i] == p);
        }
    }
    let has = upgrade::db_has(p.name@);
    let named = model::alpm_named(p.name@);
    if seqs::any(dbs, has) {
        let d = choose|d: int| 0 <= d < dbs.len() && has(#[trigger] dbs[d]);
        let k = choose|k: int| 0 <= k < dbs[d].pkgs@.len() && named(#[trigger] dbs[d].pkgs@[k]);
        assert(dbs[d].pkgs@[k].name@ == p.name@);
    }
    if exists|d: int, k: int|
        0 <= d < dbs.len() && 0 <= k < dbs[d].pkgs@.len() && (#[trigger] dbs[d].pkgs@[k]).name@
            == p.name@ {
        let (d, k) = choose|d: int, k: int|
            0 <= d < dbs.len() && 0 <= k < dbs[d].pkgs@.len() && (#[trigger] dbs[d].pkgs@[k]).name@
                == p.name@;
        assert(named(dbs[d].pkgs@[k]));
        assert(has(dbs[d]));
    }
    let among = upgrade::db_among(names);
    let of = upgrade::db_pkgs::<'a>();
    let some = dbs.filter(among);
    let targs = env.update_targs(Some(names));
    if targs.contains(p) {
        let x = seqs::lemma_flat_from(some, of, p);
        assert(some.contains(some[x]));
        seqs::lemma_filter_contains(dbs, among, some[x]);
        let d = choose|d: int| 0 <= d < dbs.len() && dbs[d] == some[x];
        let own = of(some[x]);
        let k = choose|k: int| 0 <= k < own.len() && own[k] == p;
        assert(&dbs[d].pkgs@[k] == p);
    }
    if exists|d: int, k: int|
        0 <= d < dbs.len() && names.contains(dbs[d].name@) && 0 <= k < dbs[d].pkgs@.len() && &(
        #[trigger] dbs[d].pkgs@[k]) == p {
        let (d, k) = choose|d: int, k: int|
            0 <= d < dbs.len() && names.contains(dbs[d].name@) && 0 <= k < dbs[d].pkgs@.len() && &(
            #[trigger] dbs[d].pkgs@[k]) == p;
        assert(among(dbs[d]));
        assert(dbs.contains(dbs[d]));
        seqs::lemma_filter_contains(dbs, among, dbs[d]);
        let x = choose|x: int| 0 <= x < some.len() && some[x] == dbs[d];
        assert(of(some[x])[k] == p);
        seqs::lemma_flat(some, of, x, p);
    }
}

/// A package is looked for in pkgbuild repos where one of them has a package of the name, and in the
/// AUR otherwise.
pub proof fn law_update_source<'a>(env: Env<'a>, p: &'a AlpmPkg)
    ensures
        env.has_pkgbuild()(p) <==> exists|r: int|
            0 <= r < env.repos.len() && !found::repo_lacks(#[trigger] env.repos[r], p.name@),
        env.no_pkgbuild()(p) <==> forall|r: int|
            0 <= r < env.repos.len() ==> found::repo_lacks(#[trigger] env.repos[r], p.name@),
{
    found::law_pkgbuild_named(env.repos, p.name@);
    if let Some((repo, s, q)) = model::pkgbuild_named(env.repos, p.name@) {
        let r = choose|r: int|
            0 <= r < env.repos.len() && (#[trigger] env.repos[r]).name@ == repo
                && found::is_first_srcinfo(env.repos[r], s, p.name@) && found::is_first_pkg(
                *s,
                *q,
                p.name@,
            ) && forall|x: int| 0 <= x < r ==> found::repo_lacks(#[trigger] env.repos[x], p.name@);
        let k = choose|k: int|
            0 <= k < env.repos[r].pkgs@.len() && (#[trigger] env.repos[r].pkgs@[k]) == s
                && found::has_pkg(*s, p.name@);
        assert(found::has_pkg(*env.repos[r].pkgs@[k], p.name@));
        assert(!found::repo_lacks(env.repos[r], p.name@));
    }
}

} // verus!
