//! Targets that are up to date.
use vstd::prelude::*;
use crate::actions::UnneededV;
use crate::alpm;
use crate::alpm::AlpmPkg;
use crate::depend;
use crate::depend::{DependV, VerOrder};
use crate::flags::Flags;
use crate::model::laws as found;
use crate::model::{Env, St};
use crate::pkg::AurOrPkgbuild;
use crate::resolve::aur_tree;
use crate::resolve::laws;
use crate::resolve::split::TargetsV;
use crate::resolve::targets;
use crate::resolve::tree;
use crate::satisfies;
use crate::satisfies::laws::is_version;
use crate::target::TargV;

verus! {

/// With NEEDED, a target that is up to date is only noted as such, unless it is a devel package.
pub proof fn law_needed<'a>(
    env: Env<'a>,
    st: St<'a>,
    targ: TargV,
    pkg: &'a AlpmPkg,
    make: Seq<Seq<char>>,
    is_target: bool,
    targs: Seq<Seq<char>>,
)
    requires
        env.flags.has(Flags::NEEDED),
    ensures
        !env.is_devel(targ.pkg) && !targets::repo_met(env, targ, is_target) ==> (env.up_to_date(
            pkg.name@,
            pkg.version@,
        ) matches Some(version) ==> targets::repo_target(env, st, targ, pkg, make, is_target)
            == st.unneed(targ.text(), version)),
        !env.is_devel(targ.pkg) && !env.skip_aur((env.m.depend)(targ.pkg), is_target) ==> {
            let dep = (env.m.depend)(targ.pkg);
            &&& env.pkgbuild_dep(targ.repo, dep) matches Some(f) ==> (env.up_to_date(
                f.2.pkgname@,
                f.1.full_version(),
            ) matches Some(version) ==> targets::pkgbuild_target(
                env,
                st,
                targ,
                make,
                is_target,
                targs,
            ) == st.unneed(targ.text(), version))
            &&& env.select_aur(dep, is_target) matches Some(p) ==> (env.up_to_date(
                p.name@,
                p.version@,
            ) matches Some(version) ==> targets::aur_target(
                env,
                st,
                targ.pkg,
                make,
                is_target,
                targs,
            ) == (St { seen_target: st.seen_target.insert(targ.pkg), ..st }).unneed(
                targ.pkg,
                version,
            ))
        },
{
}

/// A devel package is never skipped for being up to date.
pub proof fn law_devel<'a>(
    env: Env<'a>,
    st: St<'a>,
    targ: TargV,
    pkg: &'a AlpmPkg,
    make: Seq<Seq<char>>,
    is_target: bool,
    targs: Seq<Seq<char>>,
)
    requires
        env.is_devel(targ.pkg),
    ensures
        targets::repo_target(env, st, targ, pkg, make, is_target).unneeded == st.unneeded,
        targets::pkgbuild_target(env, st, targ, make, is_target, targs).unneeded == st.unneeded,
        targets::aur_target(env, st, targ.pkg, make, is_target, targs).unneeded == st.unneeded,
{
    lemma_repo_target(env, st, targ, pkg, make, is_target);
    lemma_built_target(env, st, targ, make, is_target, targs);
}

/// Without NEEDED no target is skipped for being up to date, and where pkgbuild dependencies are to
/// be pulled in even if they are satisfied, no dependency that is built is.
pub proof fn law_pulled_in<'a>(
    env: Env<'a>,
    st: St<'a>,
    targ: TargV,
    pkg: &'a AlpmPkg,
    make: Seq<Seq<char>>,
    is_target: bool,
    targs: Seq<Seq<char>>,
)
    requires
        !env.flags.has(Flags::NEEDED),
    ensures
        targets::repo_target(env, st, targ, pkg, make, is_target).unneeded == st.unneeded,
        is_target || env.flags.has(Flags::RESOLVE_SATISFIED_PKGBUILDS) ==> {
            &&& targets::pkgbuild_target(env, st, targ, make, is_target, targs).unneeded
                == st.unneeded
            &&& targets::aur_target(env, st, targ.pkg, make, is_target, targs).unneeded
                == st.unneeded
        },
{
    lemma_repo_target(env, st, targ, pkg, make, is_target);
    if is_target || env.flags.has(Flags::RESOLVE_SATISFIED_PKGBUILDS) {
        lemma_built_target(env, st, targ, make, is_target, targs);
    }
}

/// A target from a sync database that is not passed over.
proof fn lemma_repo_target<'a>(
    env: Env<'a>,
    st: St<'a>,
    targ: TargV,
    pkg: &'a AlpmPkg,
    make: Seq<Seq<char>>,
    is_target: bool,
)
    requires
        !env.flags.has(Flags::NEEDED) || env.is_devel(targ.pkg),
    ensures
        targets::repo_target(env, st, targ, pkg, make, is_target).unneeded == st.unneeded,
{
    lemma_repo_pkg(
        env,
        tree::repo_depth(env),
        st.push(pkg.name@, targ.pkg),
        pkg,
        is_target,
        make.contains(targ.pkg),
    );
}

/// A target that is built and not passed over.
proof fn lemma_built_target<'a>(
    env: Env<'a>,
    st: St<'a>,
    targ: TargV,
    make: Seq<Seq<char>>,
    is_target: bool,
    targs: Seq<Seq<char>>,
)
    requires
        !env.passes_over(is_target) || env.is_devel(targ.pkg),
    ensures
        targets::pkgbuild_target(env, st, targ, make, is_target, targs).unneeded == st.unneeded,
        targets::aur_target(env, st, targ.pkg, make, is_target, targs).unneeded == st.unneeded,
{
    let dep = (env.m.depend)(targ.pkg);
    let is_make = make.contains(targ.pkg);
    if let Some(f) = env.pkgbuild_dep(targ.repo, dep) {
        let s = st.push(f.2.pkgname@, targ.pkg);
        lemma_pkg_deps(env, env.depth(), s, targs, AurOrPkgbuild::Pkgbuild(f.1, f.2), is_make);
    }
    if let Some(p) = env.select_aur(dep, is_target) {
        let s = St { seen_target: st.seen_target.insert(targ.pkg), ..st }.push(p.name@, targ.pkg);
        lemma_pkg_deps(env, env.depth(), s, targs, AurOrPkgbuild::Aur(&*p), is_make);
    }
}

/// Building what a package depends on finds nothing to be up to date.
proof fn lemma_pkg_deps<'a>(
    env: Env<'a>,
    depth: nat,
    st: St<'a>,
    targs: Seq<Seq<char>>,
    who: AurOrPkgbuild<'_>,
    make: bool,
)
    ensures
        aur_tree::pkg_deps(env, depth, st, targs, who, make).unneeded == st.unneeded,
    decreases depth, 2nat, 0nat,
{
    lemma_aur_deps(env, depth, st, targs, env.needs(who), env.makes(who, make));
}

/// Building what each of the dependencies needs finds nothing to be up to date.
proof fn lemma_aur_deps<'a>(
    env: Env<'a>,
    depth: nat,
    st: St<'a>,
    targs: Seq<Seq<char>>,
    needs: Seq<Seq<char>>,
    make: spec_fn(Seq<char>) -> bool,
)
    ensures
        aur_tree::aur_deps(env, depth, st, targs, needs, make).unneeded == st.unneeded,
    decreases depth, 1nat, needs.len(),
{
    if needs.len() > 0 {
        let s = aur_tree::aur_dep(env, depth, st, targs, needs[0], make(needs[0]));
        lemma_aur_dep(env, depth, st, targs, needs[0], make(needs[0]));
        lemma_aur_deps(env, depth, s, targs, needs.drop_first(), make);
    }
}

/// Building what one dependency needs finds nothing to be up to date.
proof fn lemma_aur_dep<'a>(
    env: Env<'a>,
    depth: nat,
    st: St<'a>,
    targs: Seq<Seq<char>>,
    need: Seq<char>,
    make: bool,
)
    ensures
        aur_tree::aur_dep(env, depth, st, targs, need, make).unneeded == st.unneeded,
    decreases depth, 0nat, 0nat,
{
    let dep = (env.m.depend)(need);
    let s = st.resolve(dep.text);
    if let Some(p) = env.repo_sat(dep.text) {
        lemma_repo_pkg(env, tree::repo_depth(env), s.push(p.name@, dep.text), &p, false, true);
    }
    if depth > 0 {
        let e = (depth - 1) as nat;
        if let Some(f) = env.pkgbuild_dep(None, dep) {
            let who = AurOrPkgbuild::Pkgbuild(f.1, f.2);
            lemma_pkg_deps(env, e, s.push(f.2.pkgname@, dep.text), targs, who, true);
        }
        if let Some(p) = env.select_aur(dep, false) {
            let who = AurOrPkgbuild::Aur(&*p);
            lemma_pkg_deps(env, e, s.push(p.name@, dep.text), targs, who, true);
        }
    }
}

/// Installing a repo package finds nothing to be up to date.
proof fn lemma_repo_pkg<'a>(
    env: Env<'a>,
    depth: nat,
    st: St<'a>,
    pkg: &'a AlpmPkg,
    target: bool,
    make: bool,
)
    ensures
        tree::repo_pkg(env, depth, st, pkg, target, make).unneeded == st.unneeded,
    decreases depth, 2nat, 0nat,
{
    let s = St { seen: st.seen.insert(pkg.name@), ..st };
    lemma_repo_deps(env, depth, s, depend::deps(pkg.depends@));
}

/// Installing what the dependencies of a repo package need finds nothing to be up to date.
proof fn lemma_repo_deps<'a>(env: Env<'a>, depth: nat, st: St<'a>, deps: Seq<DependV>)
    ensures
        tree::repo_deps(env, depth, st, deps).unneeded == st.unneeded,
    decreases depth, 1nat, deps.len(),
{
    if deps.len() > 0 {
        let dep = deps[0];
        if let Some(p) = env.repo_sat(dep.text) {
            if depth > 0 {
                let e = (depth - 1) as nat;
                lemma_repo_pkg(env, e, st.push(p.name@, dep.text), &p, false, true);
            }
        }
        lemma_repo_deps(env, depth, tree::repo_dep(env, depth, st, dep), deps.drop_first());
    }
}

/// A package with the name is installed in the version `installed`, and `version` is not newer.
pub open spec fn no_newer<'a>(
    env: Env<'a>,
    name: Seq<char>,
    version: Seq<char>,
    installed: Seq<char>,
) -> bool {
    &&& (env.m.vercmp)(installed, version) == VerOrder::Equal || (env.m.vercmp)(installed, version)
        == VerOrder::Greater
    &&& exists|i: int|
        0 <= i < env.m.system.localdb@.len() && (#[trigger] env.m.system.localdb@[i]).name@ == name
            && env.m.system.localdb@[i].version@ == installed
}

/// Whatever package with the name is installed is older than `version`.
pub open spec fn all_older<'a>(env: Env<'a>, name: Seq<char>, version: Seq<char>) -> bool {
    forall|i: int|
        0 <= i < env.m.system.localdb@.len() && (#[trigger] env.m.system.localdb@[i]).name@ == name
            ==> (env.m.vercmp)(env.m.system.localdb@[i].version@, version) == VerOrder::Less
}

/// The devel callback says so of the target.
pub open spec fn says_devel<'a>(env: Env<'a>, targ: Seq<char>) -> bool {
    match env.devel {
        Some(f) => f(targ),
        None => false,
    }
}

/// How a target is written.
pub open spec fn written(t: TargV, s: Seq<char>) -> bool {
    match t.repo {
        Some(repo) => s == repo + seq!['/'] + t.pkg,
        None => s == t.pkg,
    }
}

/// The note is right for the target from a sync database: with NEEDED, a package with the name of the
/// one that is to be installed for it is installed and not older.
pub open spec fn repo_note<'a>(env: Env<'a>, t: TargV, pkg: AlpmPkg, u: UnneededV) -> bool {
    &&& written(t, u.name)
    &&& env.flags.has(Flags::NEEDED)
    &&& !says_devel(env, t.pkg)
    &&& no_newer(env, pkg.name@, pkg.version@, u.version)
}

/// What is built may be passed over for being up to date: targets with NEEDED, and dependencies unless
/// they are to be pulled in even if they are satisfied.
pub open spec fn may_pass<'a>(env: Env<'a>, targ: Seq<char>, is_target: bool) -> bool {
    &&& env.flags.has(Flags::NEEDED) || (!is_target && !env.flags.has(
        Flags::RESOLVE_SATISFIED_PKGBUILDS,
    ))
    &&& !says_devel(env, targ)
}

/// The note is right for the target from a pkgbuild repo.
pub open spec fn pkgbuild_note<'a>(env: Env<'a>, t: TargV, is_target: bool, u: UnneededV) -> bool {
    &&& written(t, u.name)
    &&& may_pass(env, t.pkg, is_target)
    &&& env.pkgbuild_dep(t.repo, (env.m.depend)(t.pkg)) matches Some(f) && exists|v: Seq<char>|
        #[trigger] is_version(*f.1, v) && no_newer(env, f.2.pkgname@, v, u.version)
}

/// The note is right for the target from the AUR.
pub open spec fn aur_note<'a>(env: Env<'a>, t: Seq<char>, is_target: bool, u: UnneededV) -> bool {
    &&& u.name == t
    &&& may_pass(env, t, is_target)
    &&& env.select_aur((env.m.depend)(t), is_target) matches Some(p) && no_newer(
        env,
        p.name@,
        p.version@,
        u.version,
    )
}

/// The note is right for one of the targets.
pub open spec fn note_right<'a>(env: Env<'a>, t: TargetsV<'a>, is_target: bool, u: UnneededV) -> bool {
    ||| exists|i: int|
        0 <= i < t.repo.len() && repo_note(env, (#[trigger] t.repo[i]).0, *t.repo[i].1, u)
    ||| exists|i: int|
        0 <= i < t.pkgbuild.len() && pkgbuild_note(env, #[trigger] t.pkgbuild[i], is_target, u)
    ||| exists|i: int| 0 <= i < t.aur.len() && aur_note(env, #[trigger] t.aur[i], is_target, u)
}

/// Each note of the second list that the first does not have is right.
pub open spec fn notes_right<'a>(
    env: Env<'a>,
    t: TargetsV<'a>,
    is_target: bool,
    a: Seq<UnneededV>,
    b: Seq<UnneededV>,
) -> bool {
    &&& a.is_prefix_of(b)
    &&& forall|n: int| a.len() <= n < b.len() ==> note_right(env, t, is_target, #[trigger] b[n])
}

/// What is installed and not older.
proof fn lemma_up_to_date<'a>(env: Env<'a>, name: Seq<char>, version: Seq<char>)
    ensures
        env.up_to_date(name, version) matches Some(v) ==> no_newer(env, name, version, v),
        all_older(env, name, version) ==> env.up_to_date(name, version) is None,
{
    found::law_local_pkg(env, name);
    if let Some(p) = env.local_pkg(name) {
        let local = env.m.system.localdb@;
        let i = choose|i: int|
            0 <= i < local.len() && (#[trigger] local[i]) == p && p.name@ == name && forall|j: int|
                0 <= j < i ==> (#[trigger] local[j]).name@ != name;
        assert(local[i].name@ == name && local[i].version@ == p.version@);
    }
}

/// One more list of notes.
proof fn lemma_notes<'a>(
    env: Env<'a>,
    t: TargetsV<'a>,
    is_target: bool,
    a: Seq<UnneededV>,
    b: Seq<UnneededV>,
    c: Seq<UnneededV>,
)
    requires
        notes_right(env, t, is_target, a, b),
        notes_right(env, t, is_target, b, c),
    ensures
        notes_right(env, t, is_target, a, c),
{
    assert forall|n: int| a.len() <= n < c.len() implies note_right(
        env,
        t,
        is_target,
        #[trigger] c[n],
    ) by {
        if n < b.len() {
            assert(b[n] == c[n]);
        }
    }
}

/// A target from a sync database.
proof fn lemma_repo_note<'a>(
    env: Env<'a>,
    st: St<'a>,
    t: TargetsV<'a>,
    i: int,
    make: Seq<Seq<char>>,
    is_target: bool,
)
    requires
        0 <= i < t.repo.len(),
    ensures
        notes_right(
            env,
            t,
            is_target,
            st.unneeded,
            targets::repo_target(env, st, t.repo[i].0, t.repo[i].1, make, is_target).unneeded,
        ),
{
    let (targ, pkg) = t.repo[i];
    lemma_up_to_date(env, pkg.name@, pkg.version@);
    lemma_repo_pkg(
        env,
        tree::repo_depth(env),
        st.push(pkg.name@, targ.pkg),
        pkg,
        is_target,
        make.contains(targ.pkg),
    );
    if let Some(v) = targets::repo_unneeded(env, targ, *pkg) {
        assert(repo_note(env, t.repo[i].0, *t.repo[i].1, UnneededV { name: targ.text(), version: v }));
    }
}

/// A target from a pkgbuild repo.
proof fn lemma_pkgbuild_note<'a>(
    env: Env<'a>,
    st: St<'a>,
    t: TargetsV<'a>,
    i: int,
    make: Seq<Seq<char>>,
    is_target: bool,
)
    requires
        0 <= i < t.pkgbuild.len(),
    ensures
        notes_right(
            env,
            t,
            is_target,
            st.unneeded,
            targets::pkgbuild_target(env, st, t.pkgbuild[i], make, is_target, t.aur).unneeded,
        ),
{
    let targ = t.pkgbuild[i];
    if let Some(f) = env.pkgbuild_dep(targ.repo, (env.m.depend)(targ.pkg)) {
        let version = f.1.full_version();
        satisfies::laws::law_srcinfo_version(*f.1, version);
        lemma_up_to_date(env, f.2.pkgname@, version);
        lemma_pkg_deps(
            env,
            env.depth(),
            st.push(f.2.pkgname@, targ.pkg),
            t.aur,
            AurOrPkgbuild::Pkgbuild(f.1, f.2),
            make.contains(targ.pkg),
        );
        if let Some(v) = env.unneeded(targ.pkg, f.2.pkgname@, version, is_target) {
            assert(is_version(*f.1, version));
            assert(pkgbuild_note(
                env,
                t.pkgbuild[i],
                is_target,
                UnneededV { name: targ.text(), version: v },
            ));
        }
    }
}

/// A target from the AUR.
proof fn lemma_aur_note<'a>(
    env: Env<'a>,
    st: St<'a>,
    t: TargetsV<'a>,
    i: int,
    make: Seq<Seq<char>>,
    is_target: bool,
)
    requires
        0 <= i < t.aur.len(),
    ensures
        notes_right(
            env,
            t,
            is_target,
            st.unneeded,
            targets::aur_target(env, st, t.aur[i], make, is_target, t.aur).unneeded,
        ),
{
    let targ = t.aur[i];
    if let Some(p) = env.select_aur((env.m.depend)(targ), is_target) {
        let s = St { seen_target: st.seen_target.insert(targ), ..st };
        lemma_up_to_date(env, p.name@, p.version@);
        lemma_pkg_deps(
            env,
            env.depth(),
            s.push(p.name@, targ),
            t.aur,
            AurOrPkgbuild::Aur(&*p),
            make.contains(targ),
        );
        if let Some(v) = env.unneeded(targ, p.name@, p.version@, is_target) {
            assert(aur_note(env, t.aur[i], is_target, UnneededV { name: targ, version: v }));
        }
    }
}

/// The targets from a place on.
proof fn lemma_repo_notes<'a>(
    env: Env<'a>,
    st: St<'a>,
    t: TargetsV<'a>,
    i: int,
    make: Seq<Seq<char>>,
    is_target: bool,
)
    requires
        0 <= i <= t.repo.len(),
    ensures
        notes_right(
            env,
            t,
            is_target,
            st.unneeded,
            targets::repo_targets(env, st, t.repo.skip(i), make, is_target).unneeded,
        ),
    decreases t.repo.len() - i,
{
    let rest = t.repo.skip(i);
    if i < t.repo.len() {
        assert(rest[0] == t.repo[i]);
        assert(rest.drop_first() =~= t.repo.skip(i + 1));
        let s = targets::repo_target(env, st, t.repo[i].0, t.repo[i].1, make, is_target);
        let r = targets::repo_targets(env, s, t.repo.skip(i + 1), make, is_target);
        lemma_repo_note(env, st, t, i, make, is_target);
        lemma_repo_notes(env, s, t, i + 1, make, is_target);
        lemma_notes(env, t, is_target, st.unneeded, s.unneeded, r.unneeded);
    }
}

/// The targets from a place on.
proof fn lemma_pkgbuild_notes<'a>(
    env: Env<'a>,
    st: St<'a>,
    t: TargetsV<'a>,
    i: int,
    make: Seq<Seq<char>>,
    is_target: bool,
)
    requires
        0 <= i <= t.pkgbuild.len(),
    ensures
        notes_right(
            env,
            t,
            is_target,
            st.unneeded,
            targets::pkgbuild_targets(
                env,
                st,
                t.pkgbuild.skip(i),
                make,
                is_target,
                t.aur,
            ).unneeded,
        ),
    decreases t.pkgbuild.len() - i,
{
    let rest = t.pkgbuild.skip(i);
    if i < t.pkgbuild.len() {
        assert(rest[0] == t.pkgbuild[i]);
        assert(rest.drop_first() =~= t.pkgbuild.skip(i + 1));
        let s = targets::pkgbuild_target(env, st, t.pkgbuild[i], make, is_target, t.aur);
        let r = targets::pkgbuild_targets(
            env,
            s,
            t.pkgbuild.skip(i + 1),
            make,
            is_target,
            t.aur,
        );
        lemma_pkgbuild_note(env, st, t, i, make, is_target);
        lemma_pkgbuild_notes(env, s, t, i + 1, make, is_target);
        lemma_notes(env, t, is_target, st.unneeded, s.unneeded, r.unneeded);
    }
}

/// The targets from a place on.
proof fn lemma_aur_notes<'a>(
    env: Env<'a>,
    st: St<'a>,
    t: TargetsV<'a>,
    i: int,
    make: Seq<Seq<char>>,
    is_target: bool,
)
    requires
        0 <= i <= t.aur.len(),
    ensures
        notes_right(
            env,
            t,
            is_target,
            st.unneeded,
            targets::aur_targets(env, st, t.aur.skip(i), make, is_target, t.aur).unneeded,
        ),
    decreases t.aur.len() - i,
{
    let rest = t.aur.skip(i);
    if i < t.aur.len() {
        assert(rest[0] == t.aur[i]);
        assert(rest.drop_first() =~= t.aur.skip(i + 1));
        let s = targets::aur_target(env, st, t.aur[i], make, is_target, t.aur);
        let r = targets::aur_targets(env, s, t.aur.skip(i + 1), make, is_target, t.aur);
        lemma_aur_note(env, st, t, i, make, is_target);
        lemma_aur_notes(env, s, t, i + 1, make, is_target);
        lemma_notes(env, t, is_target, st.unneeded, s.unneeded, r.unneeded);
    }
}

/// A target is noted as unneeded only where a package with the name of what is picked for it is
/// installed and not older, the devel callback does not claim it, and up to date targets are to be
/// passed over. The note gives the version that is installed.
pub proof fn law_unneeded<'a>(
    env: Env<'a>,
    st: St<'a>,
    t: TargetsV<'a>,
    make_deps: Seq<TargV>,
    is_target: bool,
)
    ensures
        notes_right(
            env,
            t,
            is_target,
            st.unneeded,
            targets::outcome(env, st, t, make_deps, is_target).unneeded,
        ),
{
    let make = targets::pkg_parts(make_deps);
    let s0 = St { resolved: Set::empty(), ..st };
    let s1 = targets::repo_targets(env, s0, t.repo, make, is_target);
    let s2 = targets::pkgbuild_targets(env, s1, t.pkgbuild, make, is_target, t.aur);
    let s = targets::aur_targets(env, s2, t.aur, make, is_target, t.aur);
    assert(t.repo.skip(0) =~= t.repo);
    assert(t.pkgbuild.skip(0) =~= t.pkgbuild);
    assert(t.aur.skip(0) =~= t.aur);
    lemma_repo_notes(env, s0, t, 0, make, is_target);
    lemma_pkgbuild_notes(env, s1, t, 0, make, is_target);
    lemma_aur_notes(env, s2, t, 0, make, is_target);
    lemma_notes(env, t, is_target, s0.unneeded, s1.unneeded, s2.unneeded);
    lemma_notes(env, t, is_target, s0.unneeded, s2.unneeded, s.unneeded);
}

/// The target of that name and version has to be dealt with: what is installed is older, or that it is
/// up to date does not count for it.
pub open spec fn has_to<'a>(
    env: Env<'a>,
    targ: Seq<char>,
    name: Seq<char>,
    version: Seq<char>,
    passes: bool,
) -> bool {
    all_older(env, name, version) || says_devel(env, targ) || !passes
}

/// A target is upgraded where what is installed is older, and without NEEDED reinstalled: the package
/// that is picked for it is to be installed or built, as a target and make only at most if it is asked
/// for as a make dependency. What is asked for as a dependency is left alone where it is met already,
/// and what is built for it also where it is up to date, unless that does not count.
pub proof fn law_upgraded<'a>(
    env: Env<'a>,
    st: St<'a>,
    t: TargetsV<'a>,
    make_deps: Seq<TargV>,
    is_target: bool,
    i: int,
    version: Seq<char>,
    bare: Seq<char>,
)
    requires
        alpm::valid(env.m),
        laws::fresh(st),
    ensures
        ({
            let r = targets::outcome(env, st, t, make_deps, is_target);
            let make = targets::pkg_parts(make_deps);
            let needed = env.flags.has(Flags::NEEDED);
            let pull = env.flags.has(Flags::RESOLVE_SATISFIED_PKGBUILDS);
            let passes = needed || (!is_target && !pull);
            &&& 0 <= i < t.repo.len() ==> {
                let (targ, pkg) = t.repo[i];
                let query = if env.flags.has(Flags::NO_DEP_VERSION) {
                    bare
                } else {
                    targ.pkg
                };
                found::is_bare(targ.pkg, bare) && (is_target || !(env.m.local_satisfier)(query))
                    && has_to(env, targ.pkg, pkg.name@, pkg.version@, needed) ==> laws::installs_as(
                    r.install,
                    pkg.name@,
                    make.contains(targ.pkg),
                    is_target,
                )
            }
            &&& 0 <= i < t.pkgbuild.len() ==> {
                let targ = t.pkgbuild[i];
                let dep = (env.m.depend)(targ.pkg);
                env.pkgbuild_dep(targ.repo, dep) matches Some(f) ==> ((is_target || pull || (
                !env.assumed(dep) && !env.sat_local(dep))) && is_version(*f.1, version) && has_to(
                    env,
                    targ.pkg,
                    f.2.pkgname@,
                    version,
                    passes,
                ) ==> laws::builds_as(r.build, f.2.pkgname@, make.contains(targ.pkg), is_target))
            }
            &&& 0 <= i < t.aur.len() ==> {
                let targ = t.aur[i];
                let dep = (env.m.depend)(targ);
                env.select_aur(dep, is_target) matches Some(p) ==> ((is_target || pull || (
                !env.assumed(dep) && !env.sat_local(dep))) && has_to(
                    env,
                    targ,
                    p.name@,
                    p.version@,
                    passes,
                ) ==> laws::builds_as(r.build, p.name@, make.contains(targ), is_target))
            }
        }),
{
    let r = targets::outcome(env, st, t, make_deps, is_target);
    let make = targets::pkg_parts(make_deps);
    laws::law_targets(env, st, t, make_deps, is_target);
    if 0 <= i < t.repo.len() {
        assert(laws::repo_done(env, r, t.repo[i].0, t.repo[i].1, make, is_target));
        lemma_up_to_date(env, t.repo[i].1.name@, t.repo[i].1.version@);
        found::law_no_ver(t.repo[i].0.pkg, bare);
    }
    if 0 <= i < t.pkgbuild.len() {
        assert(laws::pkgbuild_done(env, r, t.pkgbuild[i], make, is_target));
        if let Some(f) = env.pkgbuild_dep(t.pkgbuild[i].repo, (env.m.depend)(t.pkgbuild[i].pkg)) {
            satisfies::laws::law_srcinfo_version(*f.1, version);
            lemma_up_to_date(env, f.2.pkgname@, version);
        }
    }
    if 0 <= i < t.aur.len() {
        assert(laws::aur_done(env, r, t.aur[i], make, is_target));
        if let Some(p) = env.select_aur((env.m.depend)(t.aur[i]), is_target) {
            lemma_up_to_date(env, p.name@, p.version@);
        }
    }
}

} // verus!
