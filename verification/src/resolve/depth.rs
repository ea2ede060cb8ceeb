//! Dependencies are followed to the end, however many steps that takes.
use vstd::prelude::*;
use crate::alpm;
use crate::alpm::AlpmPkg;
use crate::depend;
use crate::depend::DependV;
use crate::flags::Flags;
use crate::model::{Env, St};
use crate::pkg::AurOrPkgbuild;
use crate::resolve::aur_tree;
use crate::resolve::tree;
use crate::seqs;

verus! {

/// Repo packages that have been dealt with stay so.
proof fn lemma_seen<'a>(
    env: Env<'a>,
    depth: nat,
    st: St<'a>,
    pkg: &'a AlpmPkg,
    target: bool,
    make: bool,
)
    ensures
        st.seen.subset_of(tree::repo_pkg(env, depth, st, pkg, target, make).seen),
        tree::repo_pkg(env, depth, st, pkg, target, make).resolved == st.resolved,
    decreases depth, 2nat, 0nat,
{
    if !st.seen.contains(pkg.name@) && !env.flags.has(Flags::NO_DEPS) {
        let s1 = St { seen: st.seen.insert(pkg.name@), ..st };
        lemma_seen_deps(env, depth, s1, depend::deps(pkg.depends@));
    }
}

/// The same of what the dependencies of a repo package need.
proof fn lemma_seen_deps<'a>(env: Env<'a>, depth: nat, st: St<'a>, deps: Seq<DependV>)
    ensures
        st.seen.subset_of(tree::repo_deps(env, depth, st, deps).seen),
        tree::repo_deps(env, depth, st, deps).resolved == st.resolved,
    decreases depth, 1nat, deps.len(),
{
    if deps.len() > 0 {
        lemma_seen_dep(env, depth, st, deps[0]);
        lemma_seen_deps(env, depth, tree::repo_dep(env, depth, st, deps[0]), deps.drop_first());
    }
}

/// The same of what one dependency of a repo package needs.
proof fn lemma_seen_dep<'a>(env: Env<'a>, depth: nat, st: St<'a>, dep: DependV)
    ensures
        st.seen.subset_of(tree::repo_dep(env, depth, st, dep).seen),
        tree::repo_dep(env, depth, st, dep).resolved == st.resolved,
    decreases depth, 0nat, 0nat,
{
    if let Some(p) = env.repo_sat(dep.text) {
        if depth > 0 {
            lemma_seen(env, (depth - 1) as nat, st.push(p.name@, dep.text), &p, false, true);
        }
    }
}

/// Following the dependencies of a repo package one step further than they can go changes nothing.
pub proof fn law_repo_depth<'a>(
    env: Env<'a>,
    depth: nat,
    st: St<'a>,
    pkg: &'a AlpmPkg,
    target: bool,
    make: bool,
)
    requires
        alpm::valid(env.m),
        depth >= tree::repo_bound(env, st.seen, *pkg),
    ensures
        tree::repo_pkg(env, depth + 1, st, pkg, target, make) == tree::repo_pkg(
            env,
            depth,
            st,
            pkg,
            target,
            make,
        ),
    decreases depth, 2nat, 0nat,
{
    if !st.seen.contains(pkg.name@) && !env.flags.has(Flags::NO_DEPS) {
        let s1 = St { seen: st.seen.insert(pkg.name@), ..st };
        tree::lemma_repo_bound(env, st.seen, *pkg);
        lemma_repo_deps_depth(env, depth, s1, depend::deps(pkg.depends@));
    }
}

/// The same of what the dependencies of a repo package need.
proof fn lemma_repo_deps_depth<'a>(env: Env<'a>, depth: nat, st: St<'a>, deps: Seq<DependV>)
    requires
        alpm::valid(env.m),
        depth > seqs::left(tree::sync_names(env.m.system), st.seen),
    ensures
        tree::repo_deps(env, depth + 1, st, deps) == tree::repo_deps(env, depth, st, deps),
    decreases depth, 1nat, deps.len(),
{
    if deps.len() > 0 {
        let s = tree::repo_dep(env, depth, st, deps[0]);
        lemma_repo_dep_depth(env, depth, st, deps[0]);
        lemma_seen_dep(env, depth, st, deps[0]);
        seqs::lemma_left_mono(tree::sync_names(env.m.system), st.seen, s.seen);
        lemma_repo_deps_depth(env, depth, s, deps.drop_first());
    }
}

/// The same of what one dependency of a repo package needs.
proof fn lemma_repo_dep_depth<'a>(env: Env<'a>, depth: nat, st: St<'a>, dep: DependV)
    requires
        alpm::valid(env.m),
        depth > seqs::left(tree::sync_names(env.m.system), st.seen),
    ensures
        tree::repo_dep(env, depth + 1, st, dep) == tree::repo_dep(env, depth, st, dep),
    decreases depth, 0nat, 0nat,
{
    if let Some(p) = env.repo_sat(dep.text) {
        law_repo_depth(env, (depth - 1) as nat, st.push(p.name@, dep.text), &p, false, true);
    }
}

/// Dependencies that have been dealt with stay so.
proof fn lemma_resolved<'a>(
    env: Env<'a>,
    depth: nat,
    st: St<'a>,
    targs: Seq<Seq<char>>,
    who: AurOrPkgbuild<'_>,
    make: bool,
)
    ensures
        st.resolved.subset_of(aur_tree::pkg_deps(env, depth, st, targs, who, make).resolved),
    decreases depth, 2nat, 0nat,
{
    if !env.flags.has(Flags::NO_DEPS) {
        lemma_resolved_deps(env, depth, st, targs, env.needs(who), env.makes(who, make));
    }
}

/// The same of what the dependencies need.
proof fn lemma_resolved_deps<'a>(
    env: Env<'a>,
    depth: nat,
    st: St<'a>,
    targs: Seq<Seq<char>>,
    needs: Seq<Seq<char>>,
    make: spec_fn(Seq<char>) -> bool,
)
    ensures
        st.resolved.subset_of(aur_tree::aur_deps(env, depth, st, targs, needs, make).resolved),
    decreases depth, 1nat, needs.len(),
{
    if needs.len() > 0 {
        let s = aur_tree::aur_dep(env, depth, st, targs, needs[0], make(needs[0]));
        lemma_resolved_dep(env, depth, st, targs, needs[0], make(needs[0]));
        lemma_resolved_deps(env, depth, s, targs, needs.drop_first(), make);
    }
}

/// The same of what one dependency needs.
proof fn lemma_resolved_dep<'a>(
    env: Env<'a>,
    depth: nat,
    st: St<'a>,
    targs: Seq<Seq<char>>,
    need: Seq<char>,
    make: bool,
)
    ensures
        st.resolved.subset_of(aur_tree::aur_dep(env, depth, st, targs, need, make).resolved),
    decreases depth, 0nat, 0nat,
{
    let dep = (env.m.depend)(need);
    let s1 = st.resolve(dep.text);
    if let Some(p) = env.repo_sat(dep.text) {
        lemma_seen(env, tree::repo_depth(env), s1.push(p.name@, dep.text), &p, false, true);
    }
    if depth > 0 {
        let e = (depth - 1) as nat;
        if let Some((_, srcinfo, p)) = env.pkgbuild_dep(None, dep) {
            let who = AurOrPkgbuild::Pkgbuild(srcinfo, p);
            lemma_resolved(env, e, s1.push(p.pkgname@, dep.text), targs, who, true);
        }
        if let Some(p) = env.select_aur(dep, false) {
            let who = AurOrPkgbuild::Aur(&*p);
            lemma_resolved(env, e, s1.push(p.name@, dep.text), targs, who, true);
        }
    }
}

/// Following the dependencies of a package that is built one step further than they can go changes
/// nothing.
pub proof fn law_tree_depth<'a>(
    env: Env<'a>,
    depth: nat,
    st: St<'a>,
    targs: Seq<Seq<char>>,
    who: AurOrPkgbuild<'_>,
    make: bool,
)
    requires
        env.known(who),
        depth >= seqs::left(env.all_texts(), st.resolved),
    ensures
        aur_tree::pkg_deps(env, depth + 1, st, targs, who, make) == aur_tree::pkg_deps(
            env,
            depth,
            st,
            targs,
            who,
            make,
        ),
    decreases depth, 2nat, 0nat,
{
    if !env.flags.has(Flags::NO_DEPS) {
        lemma_deps_depth(env, depth, st, targs, env.needs(who), env.makes(who, make));
    }
}

/// The same of what the dependencies need.
proof fn lemma_deps_depth<'a>(
    env: Env<'a>,
    depth: nat,
    st: St<'a>,
    targs: Seq<Seq<char>>,
    needs: Seq<Seq<char>>,
    make: spec_fn(Seq<char>) -> bool,
)
    requires
        forall|i: int|
            0 <= i < needs.len() ==> env.all_texts().contains(
                (env.m.depend)(#[trigger] needs[i]).text,
            ),
        depth >= seqs::left(env.all_texts(), st.resolved),
    ensures
        aur_tree::aur_deps(env, depth + 1, st, targs, needs, make) == aur_tree::aur_deps(
            env,
            depth,
            st,
            targs,
            needs,
            make,
        ),
    decreases depth, 1nat, needs.len(),
{
    if needs.len() > 0 {
        let s = aur_tree::aur_dep(env, depth, st, targs, needs[0], make(needs[0]));
        let rest = needs.drop_first();
        lemma_dep_depth(env, depth, st, targs, needs[0], make(needs[0]));
        lemma_resolved_dep(env, depth, st, targs, needs[0], make(needs[0]));
        seqs::lemma_left_mono(env.all_texts(), st.resolved, s.resolved);
        assert forall|i: int| 0 <= i < rest.len() implies env.all_texts().contains(
            (env.m.depend)(#[trigger] rest[i]).text,
        ) by {
            assert(rest[i] == needs[i + 1]);
        }
        lemma_deps_depth(env, depth, s, targs, rest, make);
    }
}

/// The same of what one dependency needs.
proof fn lemma_dep_depth<'a>(
    env: Env<'a>,
    depth: nat,
    st: St<'a>,
    targs: Seq<Seq<char>>,
    need: Seq<char>,
    make: bool,
)
    requires
        env.all_texts().contains((env.m.depend)(need).text),
        depth >= seqs::left(env.all_texts(), st.resolved),
    ensures
        aur_tree::aur_dep(env, depth + 1, st, targs, need, make) == aur_tree::aur_dep(
            env,
            depth,
            st,
            targs,
            need,
            make,
        ),
    decreases depth, 0nat, 0nat,
{
    let dep = (env.m.depend)(need);
    if !st.resolved.contains(dep.text) {
        let s1 = st.resolve(dep.text);
        let e = (depth - 1) as nat;
        seqs::lemma_left_insert(env.all_texts(), st.resolved, dep.text);
        if let Some((_, srcinfo, p)) = env.pkgbuild_dep(None, dep) {
            let k = aur_tree::lemma_pkgbuild_dep(env, env.repos, None, dep);
            aur_tree::lemma_known_pkgbuild(env, k, srcinfo, p);
            let who = AurOrPkgbuild::Pkgbuild(srcinfo, p);
            law_tree_depth(env, e, s1.push(p.pkgname@, dep.text), targs, who, true);
        }
        if let Some(p) = env.select_aur(dep, false) {
            aur_tree::lemma_select_aur(env, dep, false);
            aur_tree::lemma_known_aur(env, p);
            let who = AurOrPkgbuild::Aur(&*p);
            law_tree_depth(env, e, s1.push(p.name@, dep.text), targs, who, true);
        }
    }
}

} // verus!
