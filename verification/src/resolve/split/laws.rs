//! Where targets come from, stated over what there is.
use vstd::prelude::*;
use crate::actions::MissingV;
use crate::alpm::{AlpmPkg, Db};
use crate::cb::Group;
use crate::flags::Flags;
use crate::model::Env;
use crate::resolve::split;
use crate::resolve::split::{RepoSource, Split, TargetsV};
use crate::seqs;
use crate::target::TargV;

verus! {

/// There is a sync database of the name.
pub open spec fn is_db<'a>(env: Env<'a>, name: Seq<char>) -> bool {
    exists|i: int|
        0 <= i < env.m.system.syncdbs@.len() && (#[trigger] env.m.system.syncdbs@[i]).name@ == name
}

/// There is a pkgbuild repo of the name.
pub open spec fn is_repo<'a>(env: Env<'a>, name: Seq<char>) -> bool {
    exists|i: int| 0 <= i < env.repos.len() && (#[trigger] env.repos[i]).name@ == name
}

/// A target that names no repo may come from anywhere. One that does comes from there: from the AUR
/// where that is what the name stands for, else from the sync database of the name, else from the
/// pkgbuild repo of the name, else from nowhere.
pub proof fn law_source<'a>(env: Env<'a>, pkg: Seq<char>, repo: Seq<char>)
    ensures
        env.source(TargV { repo: None, pkg }) == RepoSource::Unspecified,
        ({
            let s = env.source(TargV { repo: Some(repo), pkg });
            &&& s == RepoSource::Aur <==> env.ns == Some(repo)
            &&& s == RepoSource::Repo <==> env.ns != Some(repo) && is_db(env, repo)
            &&& s == RepoSource::Pkgbuild <==> env.ns != Some(repo) && !is_db(env, repo) && is_repo(
                env,
                repo,
            )
            &&& s == RepoSource::Missing <==> env.ns != Some(repo) && !is_db(env, repo)
                && !is_repo(env, repo)
        }),
{
    let dbs = env.m.system.syncdbs@;
    let f = split::db_named(repo);
    if seqs::any(dbs, f) {
        let i = choose|i: int| 0 <= i < dbs.len() && f(#[trigger] dbs[i]);
        assert(dbs[i].name@ == repo);
    }
    if is_db(env, repo) {
        let i = choose|i: int| 0 <= i < dbs.len() && (#[trigger] dbs[i]).name@ == repo;
        assert(f(dbs[i]));
    }
}

/// The group is the first of the database with the name.
pub open spec fn is_first_group<'a>(g: Group<'a>, name: Seq<char>) -> bool {
    exists|k: int|
        0 <= k < g.db.groups@.len() && &(#[trigger] g.db.groups@[k]) == g.group && g.group.name@
            == name && forall|j: int| 0 <= j < k ==> (#[trigger] g.db.groups@[j]).name@ != name
}

/// The groups of a target are those of its name in the sync databases, or in the one it names, at
/// most one for each database.
pub proof fn law_groups<'a>(dbs: Seq<Db>, t: TargV, g: Group<'a>)
    ensures
        split::groups_in(dbs, t).contains(g) <==> is_first_group(g, t.pkg) && (t.repo is None
            || t.repo == Some(g.db.name@)) && exists|d: int|
            0 <= d < dbs.len() && &(#[trigger] dbs[d]) == g.db,
    decreases dbs.len(),
{
    if dbs.len() > 0 {
        let f = split::group_named(t.pkg);
        let own = dbs[0].groups@;
        let rest = dbs.drop_first();
        let all = split::groups_in::<'a>(dbs, t);
        let tail = split::groups_in::<'a>(rest, t);
        seqs::lemma_first(own, f);
        let k = seqs::first_at(own, f);
        law_groups(rest, t, g);
        let counts = (t.repo is None || t.repo == Some(dbs[0].name@)) && k < own.len();
        let first = Group { db: &dbs[0], group: &own[k] };
        let head = if counts {
            seq![first]
        } else {
            Seq::empty()
        };
        assert(all =~= head + tail);
        if counts {
            assert(f(own[k]));
            assert forall|j: int| 0 <= j < k implies (#[trigger] own[j]).name@ != t.pkg by {
                assert(!f(own[j]));
            }
            assert(&first.db.groups@[k] == first.group);
            assert(is_first_group(first, t.pkg));
            assert(&dbs[0] == first.db);
        }
        if all.contains(g) {
            let i = choose|i: int| 0 <= i < all.len() && all[i] == g;
            if i < head.len() {
                assert(g == first);
            } else {
                assert(tail[i - head.len()] == g);
                let d = choose|d: int| 0 <= d < rest.len() && &(#[trigger] rest[d]) == g.db;
                assert(&dbs[d + 1] == g.db);
            }
        }
        if is_first_group(g, t.pkg) && (t.repo is None || t.repo == Some(g.db.name@)) && exists|
            d: int,
        |
            0 <= d < dbs.len() && &(#[trigger] dbs[d]) == g.db {
            let d = choose|d: int| 0 <= d < dbs.len() && &(#[trigger] dbs[d]) == g.db;
            if d == 0 {
                let x = choose|x: int|
                    0 <= x < g.db.groups@.len() && &(#[trigger] g.db.groups@[x]) == g.group
                        && g.group.name@ == t.pkg && forall|j: int|
                        0 <= j < x ==> (#[trigger] g.db.groups@[j]).name@ != t.pkg;
                assert(f(own[x]));
                if k < x {
                    assert(f(own[k]));
                    assert(g.db.groups@[k].name@ != t.pkg);
                }
                assert(x == k);
                assert(g == first);
                assert(all[0] == g);
            } else {
                assert(&rest[d - 1] == g.db);
                let i = choose|i: int| 0 <= i < tail.len() && tail[i] == g;
                assert(all[head.len() + i] == g);
            }
        }
    }
}

/// Without a group callback all the packages of groups are picked, and with one those that it says.
pub proof fn law_group_picks<'a>(env: Env<'a>, groups: Seq<Group<'a>>, p: &'a AlpmPkg)
    ensures
        env.group is None ==> (env.picked(groups).contains(p) <==> exists|g: int, k: int|
            0 <= g < groups.len() && 0 <= k < groups[g].group.packages@.len() && &(
            #[trigger] groups[g].group.packages@[k]) == p),
        env.group matches Some(f) ==> env.picked(groups) == f(groups),
{
    if env.group is None {
        let f = split::members::<'a>();
        let all = seqs::flat(groups, f);
        if all.contains(p) {
            let g = seqs::lemma_flat_from(groups, f, p);
            let own = f(groups[g]);
            let k = choose|k: int| 0 <= k < own.len() && own[k] == p;
            assert(&groups[g].group.packages@[k] == p);
        }
        if exists|g: int, k: int|
            0 <= g < groups.len() && 0 <= k < groups[g].group.packages@.len() && &(
            #[trigger] groups[g].group.packages@[k]) == p {
            let (g, k) = choose|g: int, k: int|
                0 <= g < groups.len() && 0 <= k < groups[g].group.packages@.len() && &(
                #[trigger] groups[g].group.packages@[k]) == p;
            assert(f(groups[g])[k] == p);
            seqs::lemma_flat(groups, f, g, p);
        }
    }
}

/// The target may come from a sync database: it leaves that open or names one, and sync databases are
/// enabled or it is asked for as a dependency.
pub open spec fn from_sync<'a>(env: Env<'a>, t: TargV, is_target: bool) -> bool {
    &&& t.repo matches Some(repo) ==> env.ns != Some(repo) && is_db(env, repo)
    &&& is_target ==> env.flags.has(Flags::REPO)
}

/// The target may come from a pkgbuild repo.
pub open spec fn from_pkgbuilds<'a>(env: Env<'a>, t: TargV, is_target: bool) -> bool {
    &&& t.repo matches Some(repo) ==> env.ns != Some(repo) && !is_db(env, repo) && is_repo(
        env,
        repo,
    )
    &&& is_target ==> env.flags.has(Flags::PKGBUILDS)
}

/// The target may come from the AUR.
pub open spec fn from_aur<'a>(env: Env<'a>, t: TargV, is_target: bool) -> bool {
    &&& t.repo matches Some(repo) ==> env.ns == Some(repo)
    &&& is_target ==> env.flags.has(Flags::AUR)
}

/// The target is met by what is to be taken as installed.
pub open spec fn taken_as_installed<'a>(env: Env<'a>, t: TargV, is_target: bool) -> bool {
    !is_target && env.assumed(
        (env.m.depend)(
            match t.repo {
                Some(repo) => repo + seq!['/'] + t.pkg,
                None => t.pkg,
            },
        ),
    )
}

/// A dependency that is to be taken as installed is left out. Otherwise a target comes from a sync
/// package where one meets it, else from a group of its name, else from a pkgbuild repo where one has
/// a package for it, else from the AUR, each where the target may come from there. Else it is missing.
/// Exactly one of these is added, at the end.
pub proof fn law_split_one<'a>(env: Env<'a>, s: Split<'a>, t: TargV, is_target: bool)
    ensures
        ({
            let r = env.split_one(s, t, is_target);
            let left_out = taken_as_installed(env, t, is_target);
            let sync = from_sync(env, t, is_target);
            let in_repos = env.pkgbuild_dep(t.repo, (env.m.depend)(t.pkg)) is Some;
            let grouped = is_target && env.groups(t).len() > 0;
            &&& left_out ==> r == s
            &&& !left_out && sync ==> (env.target_sat(t) matches Some(p) ==> r == (Split {
                targets: TargetsV { repo: s.targets.repo.push((t, &p)), ..s.targets },
                ..s
            }))
            &&& !left_out && sync && env.target_sat(t) is None && grouped ==> {
                let picks = env.picked(env.groups(t));
                &&& r.missing == s.missing
                &&& r.targets.aur == s.targets.aur
                &&& r.targets.pkgbuild == s.targets.pkgbuild
                &&& r.targets.repo.len() == s.targets.repo.len() + picks.len()
                &&& s.targets.repo.is_prefix_of(r.targets.repo)
                &&& forall|i: int|
                    0 <= i < picks.len() ==> r.targets.repo[s.targets.repo.len() + i] == (
                        t,
                        #[trigger] picks[i],
                    )
            }
            &&& !left_out && !(sync && (env.target_sat(t) is Some || grouped)) ==> {
                &&& from_pkgbuilds(env, t, is_target) && in_repos ==> r == (Split {
                    targets: TargetsV { pkgbuild: s.targets.pkgbuild.push(t), ..s.targets },
                    ..s
                })
                &&& !(from_pkgbuilds(env, t, is_target) && in_repos) && from_aur(env, t, is_target)
                    ==> r == (Split {
                    targets: TargetsV { aur: s.targets.aur.push(t.pkg), ..s.targets },
                    ..s
                })
                &&& !(from_pkgbuilds(env, t, is_target) && in_repos) && !from_aur(
                    env,
                    t,
                    is_target,
                ) ==> r.targets == s.targets && r.missing == s.missing.push(
                    MissingV {
                        dep: match t.repo {
                            Some(repo) => repo + seq!['/'] + t.pkg,
                            None => t.pkg,
                        },
                        stack: Seq::empty(),
                    },
                )
            }
        }),
{
    let r = env.split_one(s, t, is_target);
    match t.repo {
        Some(repo) => {
            law_source(env, t.pkg, repo);
            assert(t == TargV { repo: Some(repo), pkg: t.pkg });
        },
        None => {
            law_source(env, t.pkg, t.pkg);
            assert(t == TargV { repo: None, pkg: t.pkg });
        },
    }
    if let Some(p) = env.target_sat(t) {
        assert(s.targets.repo + split::for_target(t, seq![&p]) =~= s.targets.repo.push((t, &p)));
    }
}

/// Targets are told one after the other.
pub proof fn law_split_all<'a>(env: Env<'a>, s: Split<'a>, ts: Seq<TargV>, t: TargV, is_target: bool)
    ensures
        env.split(s, Seq::empty(), is_target) == s,
        env.split(s, ts.push(t), is_target) == env.split_one(
            env.split(s, ts, is_target),
            t,
            is_target,
        ),
    decreases ts.len(),
{
    let all = ts.push(t);
    if ts.len() == 0 {
        assert(all.drop_first() =~= Seq::<TargV>::empty());
        assert(ts =~= Seq::empty());
        assert(env.split(env.split_one(s, t, is_target), all.drop_first(), is_target)
            == env.split_one(s, t, is_target));
    } else {
        assert(all.drop_first() =~= ts.drop_first().push(t));
        law_split_all(
            env,
            env.split_one(s, ts[0], is_target),
            ts.drop_first(),
            t,
            is_target,
        );
    }
}

} // verus!
