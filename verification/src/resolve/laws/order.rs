//! The order in which packages are built.
use vstd::prelude::*;
use crate::alpm;
use crate::alpm::AlpmPkg;
use crate::base::{AurPackage, Package, Pkgbuild};
use crate::depend::DependV;
use crate::flags::Flags;
use crate::model::{Env, St};
use crate::pkg::{AurOrPkgbuild, Srcinfo};
use crate::resolve::aur_tree;
use crate::resolve::laws;
use crate::resolve::split::TargetsV;
use crate::resolve::targets;
use crate::resolve::tree;
use crate::seqs;
use crate::target::TargV;

verus! {

/// The state with the first `n` bases only.
pub open spec fn built<'a>(st: St<'a>, n: int) -> St<'a> {
    St { build: st.build.take(n), ..st }
}

/// Each of the needs ranks lower than `x`.
pub open spec fn below<'a>(
    env: Env<'a>,
    rank: spec_fn(Seq<char>) -> nat,
    needs: Seq<Seq<char>>,
    x: Seq<char>,
) -> bool {
    forall|i: int|
        0 <= i < needs.len() ==> rank((env.m.depend)(#[trigger] needs[i]).text) < rank(x)
}

/// What the package needs that is picked for the dependency ranks lower than the dependency.
pub open spec fn falls<'a>(env: Env<'a>, rank: spec_fn(Seq<char>) -> nat, dep: DependV) -> bool {
    match env.pkgbuild_dep(None, dep) {
        Some(f) => below(env, rank, env.needs(AurOrPkgbuild::Pkgbuild(f.1, f.2)), dep.text),
        None => env.select_aur(dep, false) matches Some(p) ==> below(
            env,
            rank,
            env.needs(AurOrPkgbuild::Aur(&*p)),
            dep.text,
        ),
    }
}

/// No dependency of a package that can be built leads back to itself: going from a dependency to
/// what the package needs that is picked for it, the rank falls.
pub open spec fn no_cycle<'a>(env: Env<'a>, rank: spec_fn(Seq<char>) -> nat) -> bool {
    forall|need: Seq<char>|
        env.all_texts().contains((#[trigger] (env.m.depend)(need)).text) ==> falls(
            env,
            rank,
            (env.m.depend)(need),
        )
}

/// Each of the needs has been answered.
spec fn all_answered<'a>(env: Env<'a>, st: St<'a>, needs: Seq<Seq<char>>) -> bool {
    forall|i: int|
        0 <= i < needs.len() ==> laws::answered(env, st, (env.m.depend)(#[trigger] needs[i]))
}

/// What each package that is to be built needs is answered by its own base, those before it, and
/// what is installed.
spec fn ordered<'a>(env: Env<'a>, st: St<'a>) -> bool {
    forall|b: int, k: int|
        0 <= b < st.build.len() && 0 <= k < st.build[b].names().len() ==> all_answered(
            env,
            built(st, b + 1),
            #[trigger] laws::needs_of(env, st.build[b], k),
        )
}

/// Each of the needs ranks lower than all that is being dealt with.
spec fn clear<'a>(
    env: Env<'a>,
    rank: spec_fn(Seq<char>) -> nat,
    needs: Seq<Seq<char>>,
    open: Set<Seq<char>>,
) -> bool {
    forall|x: Seq<char>| #[trigger] open.contains(x) ==> below(env, rank, needs, x)
}

/// What has been answered stays so.
proof fn lemma_all_answered<'a>(env: Env<'a>, a: St<'a>, b: St<'a>, needs: Seq<Seq<char>>)
    requires
        laws::grows(a, b),
        all_answered(env, a, needs),
    ensures
        all_answered(env, b, needs),
{
    assert forall|i: int| 0 <= i < needs.len() implies laws::answered(
        env,
        b,
        (env.m.depend)(#[trigger] needs[i]),
    ) by {
        laws::lemma_answered(env, a, b, (env.m.depend)(needs[i]));
    }
}

/// What has been dealt with has been answered, where none of it is being dealt with.
proof fn lemma_clear<'a>(
    env: Env<'a>,
    rank: spec_fn(Seq<char>) -> nat,
    st: St<'a>,
    needs: Seq<Seq<char>>,
    open: Set<Seq<char>>,
)
    requires
        laws::tree_ok(env, st, open),
        laws::all_dealt(env, st, needs),
        clear(env, rank, needs, open),
    ensures
        all_answered(env, st, needs),
{
    assert forall|i: int| 0 <= i < needs.len() implies laws::answered(
        env,
        st,
        (env.m.depend)(#[trigger] needs[i]),
    ) by {
        let dep = (env.m.depend)(needs[i]);
        assert(laws::dealt(env, st, needs[i]));
        if open.contains(dep.text) {
            assert(below(env, rank, needs, dep.text));
        }
    }
}

/// The packages that were to be built before stay in order.
proof fn lemma_kept<'a>(env: Env<'a>, a: St<'a>, b: St<'a>, i: int, k: int)
    requires
        ordered(env, a),
        laws::grows(a, b),
        0 <= i < a.build.len(),
        0 <= k < a.build[i].names().len(),
    ensures
        laws::needs_of(env, b.build[i], k) == laws::needs_of(env, a.build[i], k),
        all_answered(env, built(b, i + 1), laws::needs_of(env, b.build[i], k)),
{
    let x = built(a, i + 1);
    let y = built(b, i + 1);
    assert(laws::base_grows(a.build[i], b.build[i]));
    assert forall|j: int| 0 <= j < x.build.len() implies laws::base_grows(
        x.build[j],
        #[trigger] y.build[j],
    ) by {
        assert(laws::base_grows(a.build[j], b.build[j]));
    }
    assert(laws::grows(x, y));
    assert(all_answered(env, x, laws::needs_of(env, a.build[i], k)));
    lemma_all_answered(env, x, y, laws::needs_of(env, a.build[i], k));
}

/// Where no package is added the order is kept.
proof fn lemma_same<'a>(env: Env<'a>, a: St<'a>, b: St<'a>)
    requires
        ordered(env, a),
        laws::grows(a, b),
        b.build == a.build || laws::same_packages(a, b),
    ensures
        ordered(env, b),
{
    assert forall|i: int, k: int|
        0 <= i < b.build.len() && 0 <= k < b.build[i].names().len() implies all_answered(
        env,
        built(b, i + 1),
        #[trigger] laws::needs_of(env, b.build[i], k),
    ) by {
        if b.build != a.build {
            laws::lemma_same_names(a.build[i], b.build[i]);
        }
        lemma_kept(env, a, b, i, k);
    }
}

/// An AUR package comes after what it needs.
proof fn lemma_aur<'a>(env: Env<'a>, st: St<'a>, p: AurPackage)
    requires
        laws::bases_ok(st.build),
        ordered(env, st),
        all_answered(env, st, env.needs(AurOrPkgbuild::Aur(&*p.pkg))),
    ensures
        ordered(env, st.add_aur(p)),
{
    let r = st.add_aur(p);
    laws::lemma_add_aur(st, p);
    assert forall|i: int, k: int|
        0 <= i < r.build.len() && 0 <= k < r.build[i].names().len() implies all_answered(
        env,
        built(r, i + 1),
        #[trigger] laws::needs_of(env, r.build[i], k),
    ) by {
        if i < st.build.len() && k < st.build[i].names().len() {
            lemma_kept(env, st, r, i, k);
        } else {
            assert(i == r.build.len() - 1);
            assert(r.build[i]->Aur_pkgs[k] == p);
            assert(built(r, i + 1).build =~= r.build);
            lemma_all_answered(env, st, r, env.needs(AurOrPkgbuild::Aur(&*p.pkg)));
        }
    }
}

/// A package of a pkgbuild repo comes after what it needs.
proof fn lemma_pkgbuild<'a>(
    env: Env<'a>,
    st: St<'a>,
    repo: Seq<char>,
    s: &'a Srcinfo,
    p: Pkgbuild<'a>,
)
    requires
        laws::bases_ok(st.build),
        ordered(env, st),
        all_answered(env, st, env.needs(AurOrPkgbuild::Pkgbuild(s, p.pkg))),
    ensures
        ordered(env, st.add_pkgbuild(repo, s, p)),
{
    let r = st.add_pkgbuild(repo, s, p);
    laws::lemma_add_pkgbuild(st, repo, s, p);
    assert forall|i: int, k: int|
        0 <= i < r.build.len() && 0 <= k < r.build[i].names().len() implies all_answered(
        env,
        built(r, i + 1),
        #[trigger] laws::needs_of(env, r.build[i], k),
    ) by {
        if i < st.build.len() && k < st.build[i].names().len() {
            lemma_kept(env, st, r, i, k);
        } else {
            let mine = env.needs(AurOrPkgbuild::Pkgbuild(s, p.pkg));
            let t = r.build[i]->Pkgbuild_srcinfo;
            let all = laws::needs_of(env, r.build[i], k);
            assert(i == r.build.len() - 1);
            assert(r.build[i]->Pkgbuild_pkgs[k] == p);
            assert(built(r, i + 1).build =~= r.build);
            lemma_all_answered(env, st, r, mine);
            if i < st.build.len() {
                let first = st.build[i]->Pkgbuild_pkgs[0];
                let head = laws::needs_of(env, st.build[i], 0);
                assert(laws::has_pkgs(st.build[i]));
                lemma_kept(env, st, r, i, 0);
                laws::lemma_pkgbuild_needs(env, st, t, first.pkg);
                laws::lemma_pkgbuild_needs(env, st, t, p.pkg);
                laws::lemma_pkgbuild_needs(env, st, s, p.pkg);
                let base = laws::base_needs(env, t);
                let own = laws::base_needs(env, s);
                assert forall|n: int| 0 <= n < all.len() implies laws::answered(
                    env,
                    r,
                    (env.m.depend)(#[trigger] all[n]),
                ) by {
                    if n < base.len() {
                        assert(head[n] == all[n]);
                    } else {
                        assert(mine[own.len() + n - base.len()] == all[n]);
                    }
                }
            }
        }
    }
}

/// Building what a package depends on keeps the order.
proof fn lemma_pkg_deps<'a>(
    env: Env<'a>,
    rank: spec_fn(Seq<char>) -> nat,
    depth: nat,
    st: St<'a>,
    targs: Seq<Seq<char>>,
    who: AurOrPkgbuild<'_>,
    make: bool,
    open: Set<Seq<char>>,
)
    requires
        alpm::valid(env.m),
        !env.flags.has(Flags::NO_DEPS),
        no_cycle(env, rank),
        depth >= seqs::left(env.all_texts(), st.resolved),
        env.known(who),
        laws::tree_ok(env, st, open),
        ordered(env, st),
        clear(env, rank, env.needs(who), open),
    ensures
        ordered(env, aur_tree::pkg_deps(env, depth, st, targs, who, make)),
        all_answered(
            env,
            aur_tree::pkg_deps(env, depth, st, targs, who, make),
            env.needs(who),
        ),
    decreases depth, 2nat, 0nat,
{
    let r = aur_tree::pkg_deps(env, depth, st, targs, who, make);
    lemma_aur_deps(env, rank, depth, st, targs, env.needs(who), env.makes(who, make), open);
    laws::lemma_pkg_deps(env, depth, st, targs, who, make, open);
    lemma_clear(env, rank, r, env.needs(who), open);
}

/// Building what each of the dependencies needs keeps the order.
proof fn lemma_aur_deps<'a>(
    env: Env<'a>,
    rank: spec_fn(Seq<char>) -> nat,
    depth: nat,
    st: St<'a>,
    targs: Seq<Seq<char>>,
    needs: Seq<Seq<char>>,
    make: spec_fn(Seq<char>) -> bool,
    open: Set<Seq<char>>,
)
    requires
        alpm::valid(env.m),
        !env.flags.has(Flags::NO_DEPS),
        no_cycle(env, rank),
        depth >= seqs::left(env.all_texts(), st.resolved),
        forall|i: int|
            0 <= i < needs.len() ==> env.all_texts().contains(
                (env.m.depend)(#[trigger] needs[i]).text,
            ),
        laws::tree_ok(env, st, open),
        ordered(env, st),
        clear(env, rank, needs, open),
    ensures
        ordered(env, aur_tree::aur_deps(env, depth, st, targs, needs, make)),
    decreases depth, 1nat, needs.len(),
{
    if needs.len() > 0 {
        let s = aur_tree::aur_dep(env, depth, st, targs, needs[0], make(needs[0]));
        let rest = needs.drop_first();
        assert forall|x: Seq<char>| #[trigger] open.contains(x) implies below(env, rank, rest, x)
            && rank((env.m.depend)(needs[0]).text) < rank(x) by {
            assert(below(env, rank, needs, x));
            assert forall|i: int| 0 <= i < rest.len() implies rank(
                (env.m.depend)(#[trigger] rest[i]).text,
            ) < rank(x) by {
                assert(rest[i] == needs[i + 1]);
            }
        }
        lemma_aur_dep(env, rank, depth, st, targs, needs[0], make(needs[0]), open);
        laws::lemma_aur_dep(env, depth, st, targs, needs[0], make(needs[0]), open);
        seqs::lemma_left_mono(env.all_texts(), st.resolved, s.resolved);
        assert forall|i: int| 0 <= i < rest.len() implies env.all_texts().contains(
            (env.m.depend)(#[trigger] rest[i]).text,
        ) by {
            assert(rest[i] == needs[i + 1]);
        }
        lemma_aur_deps(env, rank, depth, s, targs, rest, make, open);
    }
}

/// What a package needs that is picked for a dependency ranks lower than all that is being dealt
/// with, the dependency among it.
proof fn lemma_open<'a>(
    env: Env<'a>,
    rank: spec_fn(Seq<char>) -> nat,
    needs: Seq<Seq<char>>,
    dep: Seq<char>,
    open: Set<Seq<char>>,
)
    requires
        below(env, rank, needs, dep),
        forall|x: Seq<char>| #[trigger] open.contains(x) ==> rank(dep) < rank(x),
    ensures
        clear(env, rank, needs, open.insert(dep)),
{
    assert forall|x: Seq<char>| #[trigger] open.insert(dep).contains(x) implies below(
        env,
        rank,
        needs,
        x,
    ) by {
        assert(x == dep || open.contains(x));
    }
}

/// Building what one dependency needs keeps the order.
proof fn lemma_aur_dep<'a>(
    env: Env<'a>,
    rank: spec_fn(Seq<char>) -> nat,
    depth: nat,
    st: St<'a>,
    targs: Seq<Seq<char>>,
    need: Seq<char>,
    make: bool,
    open: Set<Seq<char>>,
)
    requires
        alpm::valid(env.m),
        !env.flags.has(Flags::NO_DEPS),
        no_cycle(env, rank),
        depth >= seqs::left(env.all_texts(), st.resolved),
        env.all_texts().contains((env.m.depend)(need).text),
        laws::tree_ok(env, st, open),
        ordered(env, st),
        forall|x: Seq<char>| #[trigger]
            open.contains(x) ==> rank((env.m.depend)(need).text) < rank(x),
    ensures
        ordered(env, aur_tree::aur_dep(env, depth, st, targs, need, make)),
    decreases depth, 0nat, 0nat,
{
    let dep = (env.m.depend)(need);
    let r = aur_tree::aur_dep(env, depth, st, targs, need, make);
    laws::lemma_aur_dep(env, depth, st, targs, need, make, open);
    assert(laws::grows(st, r));
    if env.assumed(dep) || env.sat_build(st.build, dep) || st.resolved.contains(dep.text)
        || env.sat_install(st.install, dep) {
    } else {
        let s1 = st.resolve(dep.text);
        let more = open.insert(dep.text);
        let is_targ = env.is_aur_targ(st.seen_target, targs, dep);
        assert(falls(env, rank, dep));
        laws::lemma_tree_open(env, st, open, dep.text);
        seqs::lemma_left_insert(env.all_texts(), st.resolved, dep.text);
        lemma_same(env, st, s1);
        if !is_targ && !env.flags.has(Flags::RESOLVE_SATISFIED_PKGBUILDS) && env.sat_local(dep) {
        } else if !is_targ && env.repo_sat(dep.text) is Some {
            let p = env.repo_sat(dep.text)->0;
            if !env.sat_local(dep) {
                let d = tree::repo_depth(env);
                let s2 = s1.push(p.name@, dep.text);
                assert(laws::grows(s1, s2));
                laws::lemma_tree_same(env, s1, s2, more);
                seqs::lemma_left_len(tree::sync_names(env.m.system), s2.seen);
                laws::lemma_repo_pkg(env, d, s2, &p, false, true);
                lemma_same(env, st, r);
            }
        } else if env.skip_aur(dep, is_targ) {
        } else {
            match env.pkgbuild_dep(None, dep) {
                Some((repo, srcinfo, p)) => {
                    let e = (depth - 1) as nat;
                    let who = AurOrPkgbuild::Pkgbuild(srcinfo, p);
                    let s2 = s1.push(p.pkgname@, dep.text);
                    let s3 = aur_tree::pkg_deps(env, e, s2, targs, who, true);
                    let s4 = s3.pop();
                    let q = Package { pkg: p, make, target: false };
                    let k = aur_tree::lemma_pkgbuild_dep(env, env.repos, None, dep);
                    aur_tree::lemma_known_pkgbuild(env, k, srcinfo, p);
                    assert(laws::grows(s1, s2));
                    laws::lemma_tree_same(env, s1, s2, more);
                    lemma_same(env, s1, s2);
                    lemma_open(env, rank, env.needs(who), dep.text, open);
                    laws::lemma_pkg_deps(env, e, s2, targs, who, true, more);
                    lemma_pkg_deps(env, rank, e, s2, targs, who, true, more);
                    assert(laws::grows(s3, s4));
                    lemma_same(env, s3, s4);
                    lemma_all_answered(env, s3, s4, env.needs(who));
                    lemma_pkgbuild(env, s4, repo, srcinfo, q);
                    assert(r == s4.add_pkgbuild(repo, srcinfo, q));
                },
                None => match env.select_aur(dep, false) {
                    Some(p) => {
                        let e = (depth - 1) as nat;
                        let who = AurOrPkgbuild::Aur(&*p);
                        let s2 = s1.push(p.name@, dep.text);
                        let s3 = aur_tree::pkg_deps(env, e, s2, targs, who, true);
                        let s4 = s3.pop();
                        let q = Package { pkg: p, make, target: false };
                        aur_tree::lemma_select_aur(env, dep, false);
                        aur_tree::lemma_known_aur(env, p);
                        assert(laws::grows(s1, s2));
                        laws::lemma_tree_same(env, s1, s2, more);
                        lemma_same(env, s1, s2);
                        lemma_open(env, rank, env.needs(who), dep.text, open);
                        laws::lemma_pkg_deps(env, e, s2, targs, who, true, more);
                        lemma_pkg_deps(env, rank, e, s2, targs, who, true, more);
                        assert(laws::grows(s3, s4));
                        lemma_same(env, s3, s4);
                        lemma_all_answered(env, s3, s4, env.needs(who));
                        lemma_aur(env, s4, q);
                        assert(r == s4.add_aur(q));
                    },
                    None => {
                        lemma_same(env, st, r);
                    },
                },
            }
        }
    }
}

/// Resolving a target that comes from a sync database builds nothing.
proof fn lemma_repo_target<'a>(
    env: Env<'a>,
    st: St<'a>,
    targ: TargV,
    pkg: &'a AlpmPkg,
    make: Seq<Seq<char>>,
    is_target: bool,
)
    requires
        alpm::valid(env.m),
        laws::run_ok(env, st),
        ordered(env, st),
    ensures
        ordered(env, targets::repo_target(env, st, targ, pkg, make, is_target)),
{
    let r = targets::repo_target(env, st, targ, pkg, make, is_target);
    let is_make = make.contains(targ.pkg);
    laws::lemma_repo_target(env, st, targ, pkg, make, is_target);
    if !targets::repo_met(env, targ, is_target) && targets::repo_unneeded(env, targ, *pkg) is None {
        let d = tree::repo_depth(env);
        let s = st.push(pkg.name@, targ.pkg);
        assert(laws::grows(st, s));
        laws::lemma_run_same(env, st, s);
        seqs::lemma_left_len(tree::sync_names(env.m.system), s.seen);
        laws::lemma_repo_pkg(env, d, s, pkg, is_target, is_make);
    }
    lemma_same(env, st, r);
}

/// Building what a target depends on keeps the order.
proof fn lemma_target_deps<'a>(
    env: Env<'a>,
    rank: spec_fn(Seq<char>) -> nat,
    st: St<'a>,
    targs: Seq<Seq<char>>,
    who: AurOrPkgbuild<'_>,
    make: bool,
    name: Seq<char>,
    targ: Seq<char>,
) -> (s: St<'a>)
    requires
        alpm::valid(env.m),
        !env.flags.has(Flags::NO_DEPS),
        no_cycle(env, rank),
        laws::run_ok(env, st),
        ordered(env, st),
        env.known(who),
    ensures
        s == aur_tree::pkg_deps(env, env.depth(), st.push(name, targ), targs, who, make).pop(),
        laws::run_ok(env, s),
        ordered(env, s),
        all_answered(env, s, env.needs(who)),
{
    let s1 = st.push(name, targ);
    let s2 = aur_tree::pkg_deps(env, env.depth(), s1, targs, who, make);
    let s = laws::lemma_target_deps(env, st, targs, who, make, name, targ);
    assert(laws::grows(st, s1));
    laws::lemma_run_same(env, st, s1);
    lemma_same(env, st, s1);
    seqs::lemma_left_len(env.all_texts(), s1.resolved);
    lemma_pkg_deps(env, rank, env.depth(), s1, targs, who, make, Set::empty());
    assert(laws::grows(s2, s));
    lemma_same(env, s2, s);
    lemma_all_answered(env, s2, s, env.needs(who));
    s
}

/// Resolving a target that comes from a pkgbuild repo keeps the order.
proof fn lemma_pkgbuild_target<'a>(
    env: Env<'a>,
    rank: spec_fn(Seq<char>) -> nat,
    st: St<'a>,
    targ: TargV,
    make: Seq<Seq<char>>,
    is_target: bool,
    targs: Seq<Seq<char>>,
)
    requires
        alpm::valid(env.m),
        !env.flags.has(Flags::NO_DEPS),
        no_cycle(env, rank),
        laws::run_ok(env, st),
        ordered(env, st),
    ensures
        ordered(env, targets::pkgbuild_target(env, st, targ, make, is_target, targs)),
{
    let dep = (env.m.depend)(targ.pkg);
    let is_make = make.contains(targ.pkg);
    let r = targets::pkgbuild_target(env, st, targ, make, is_target, targs);
    laws::lemma_pkgbuild_target(env, st, targ, make, is_target, targs);
    if r.build == st.build {
        lemma_same(env, st, r);
    } else {
        let (repo, srcinfo, p) = env.pkgbuild_dep(targ.repo, dep)->0;
        let who = AurOrPkgbuild::Pkgbuild(srcinfo, p);
        let k = aur_tree::lemma_pkgbuild_dep(env, env.repos, targ.repo, dep);
        aur_tree::lemma_known_pkgbuild(env, k, srcinfo, p);
        let s = lemma_target_deps(env, rank, st, targs, who, is_make, p.pkgname@, targ.pkg);
        if targets::builds(s.build, p.pkgname@) {
            laws::lemma_mark_build(s, p.pkgname@, is_make, is_target);
            lemma_same(env, s, r);
        } else {
            let q = Package { pkg: p, make: is_make, target: is_target };
            lemma_pkgbuild(env, s, repo, srcinfo, q);
        }
    }
}

/// Resolving a target that comes from the AUR keeps the order.
proof fn lemma_aur_target<'a>(
    env: Env<'a>,
    rank: spec_fn(Seq<char>) -> nat,
    st: St<'a>,
    targ: Seq<char>,
    make: Seq<Seq<char>>,
    is_target: bool,
    targs: Seq<Seq<char>>,
)
    requires
        alpm::valid(env.m),
        !env.flags.has(Flags::NO_DEPS),
        no_cycle(env, rank),
        laws::run_ok(env, st),
        ordered(env, st),
    ensures
        ordered(env, targets::aur_target(env, st, targ, make, is_target, targs)),
{
    let dep = (env.m.depend)(targ);
    let is_make = make.contains(targ);
    let s0 = St { seen_target: st.seen_target.insert(targ), ..st };
    let r = targets::aur_target(env, st, targ, make, is_target, targs);
    laws::lemma_aur_target(env, st, targ, make, is_target, targs);
    if r.build == st.build {
        lemma_same(env, st, r);
    } else {
        let p = env.select_aur(dep, is_target)->0;
        let who = AurOrPkgbuild::Aur(&*p);
        aur_tree::lemma_select_aur(env, dep, is_target);
        aur_tree::lemma_known_aur(env, p);
        assert(laws::grows(st, s0));
        laws::lemma_run_same(env, st, s0);
        lemma_same(env, st, s0);
        let s = lemma_target_deps(env, rank, s0, targs, who, is_make, p.name@, targ);
        if targets::builds(s.build, p.name@) {
            laws::lemma_mark_build(s, p.name@, is_make, is_target);
            lemma_same(env, s, r);
        } else {
            lemma_aur(env, s, Package { pkg: p, make: is_make, target: is_target });
        }
    }
}

/// Resolving the targets that come from sync databases keeps the order.
proof fn lemma_repo_targets<'a>(
    env: Env<'a>,
    st: St<'a>,
    ts: Seq<(TargV, &'a AlpmPkg)>,
    make: Seq<Seq<char>>,
    is_target: bool,
)
    requires
        alpm::valid(env.m),
        laws::run_ok(env, st),
        ordered(env, st),
    ensures
        ordered(env, targets::repo_targets(env, st, ts, make, is_target)),
    decreases ts.len(),
{
    if ts.len() > 0 {
        let s = targets::repo_target(env, st, ts[0].0, ts[0].1, make, is_target);
        laws::lemma_repo_target(env, st, ts[0].0, ts[0].1, make, is_target);
        lemma_repo_target(env, st, ts[0].0, ts[0].1, make, is_target);
        lemma_repo_targets(env, s, ts.drop_first(), make, is_target);
    }
}

/// Resolving the targets that come from pkgbuild repos keeps the order.
proof fn lemma_pkgbuild_targets<'a>(
    env: Env<'a>,
    rank: spec_fn(Seq<char>) -> nat,
    st: St<'a>,
    ts: Seq<TargV>,
    make: Seq<Seq<char>>,
    is_target: bool,
    targs: Seq<Seq<char>>,
)
    requires
        alpm::valid(env.m),
        !env.flags.has(Flags::NO_DEPS),
        no_cycle(env, rank),
        laws::run_ok(env, st),
        ordered(env, st),
    ensures
        ordered(env, targets::pkgbuild_targets(env, st, ts, make, is_target, targs)),
    decreases ts.len(),
{
    if ts.len() > 0 {
        let s = targets::pkgbuild_target(env, st, ts[0], make, is_target, targs);
        laws::lemma_pkgbuild_target(env, st, ts[0], make, is_target, targs);
        lemma_pkgbuild_target(env, rank, st, ts[0], make, is_target, targs);
        lemma_pkgbuild_targets(env, rank, s, ts.drop_first(), make, is_target, targs);
    }
}

/// Resolving the targets that come from the AUR keeps the order.
proof fn lemma_aur_targets<'a>(
    env: Env<'a>,
    rank: spec_fn(Seq<char>) -> nat,
    st: St<'a>,
    ts: Seq<Seq<char>>,
    make: Seq<Seq<char>>,
    is_target: bool,
    targs: Seq<Seq<char>>,
)
    requires
        alpm::valid(env.m),
        !env.flags.has(Flags::NO_DEPS),
        no_cycle(env, rank),
        laws::run_ok(env, st),
        ordered(env, st),
    ensures
        ordered(env, targets::aur_targets(env, st, ts, make, is_target, targs)),
    decreases ts.len(),
{
    if ts.len() > 0 {
        let s = targets::aur_target(env, st, ts[0], make, is_target, targs);
        laws::lemma_aur_target(env, st, ts[0], make, is_target, targs);
        lemma_aur_target(env, rank, st, ts[0], make, is_target, targs);
        lemma_aur_targets(env, rank, s, ts.drop_first(), make, is_target, targs);
    }
}

/// Packages are built after what they need: where no dependency leads back to itself, each
/// dependency of each package that is to be built is accounted for by the base of the package, the
/// bases before it and what is installed, unless it is missing.
pub proof fn law_order<'a>(
    env: Env<'a>,
    rank: spec_fn(Seq<char>) -> nat,
    st: St<'a>,
    t: TargetsV<'a>,
    make_deps: Seq<TargV>,
    is_target: bool,
)
    requires
        alpm::valid(env.m),
        laws::fresh(st),
        !env.flags.has(Flags::NO_DEPS),
        no_cycle(env, rank),
    ensures
        ({
            let r = targets::outcome(env, st, t, make_deps, is_target);
            forall|b: int, k: int, n: int|
                0 <= b < r.build.len() && 0 <= k < r.build[b].names().len() && 0 <= n
                    < laws::needs_of(env, r.build[b], k).len() ==> laws::accounted(
                    env,
                    built(r, b + 1),
                    (env.m.depend)(#[trigger] laws::needs_of(env, r.build[b], k)[n]),
                )
        }),
{
    let make = targets::pkg_parts(make_deps);
    let s0 = St { resolved: Set::empty(), ..st };
    let s1 = targets::repo_targets(env, s0, t.repo, make, is_target);
    let s2 = targets::pkgbuild_targets(env, s1, t.pkgbuild, make, is_target, t.aur);
    let s = laws::lemma_all_targets(env, s0, t, make, is_target);
    let r = targets::outcome(env, st, t, make_deps, is_target);
    assert(laws::run_ok(env, s0));
    laws::lemma_repo_targets(env, s0, t.repo, make, is_target);
    laws::lemma_pkgbuild_targets(env, s1, t.pkgbuild, make, is_target, t.aur);
    lemma_repo_targets(env, s0, t.repo, make, is_target);
    lemma_pkgbuild_targets(env, rank, s1, t.pkgbuild, make, is_target, t.aur);
    lemma_aur_targets(env, rank, s2, t.aur, make, is_target, t.aur);
    let f = s.make_only(env);
    laws::lemma_makes(env, s, f);
    assert forall|b: int, k: int, n: int|
        0 <= b < r.build.len() && 0 <= k < r.build[b].names().len() && 0 <= n < laws::needs_of(
            env,
            r.build[b],
            k,
        ).len() implies laws::accounted(
        env,
        built(r, b + 1),
        (env.m.depend)(#[trigger] laws::needs_of(env, r.build[b], k)[n]),
    ) by {
        let x = built(s, b + 1);
        if env.flags.has(Flags::CALCULATE_MAKE) {
            assert(laws::same_pkgs(s.build[b], r.build[b]));
            laws::lemma_same_names(s.build[b], r.build[b]);
            assert(x.with_makes(f).build =~= built(r, b + 1).build);
            assert(x.with_makes(f) == built(r, b + 1));
        }
        let needs = laws::needs_of(env, s.build[b], k);
        assert(needs == laws::needs_of(env, r.build[b], k));
        assert(all_answered(env, x, needs));
        let dep = (env.m.depend)(needs[n]);
        laws::lemma_accounted(env, x, dep);
        if env.flags.has(Flags::CALCULATE_MAKE) {
            laws::lemma_accounted_makes(env, x, f, dep);
        }
    }
}

} // verus!
