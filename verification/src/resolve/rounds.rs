//! Looking packages up as a whole: the rounds from the targets to the end.
//!
//! A run starts with [`Resolver::cache_targets`](crate::resolve::Resolver::cache_targets) and goes on
//! with [`on_info`](crate::resolve::Resolver::on_info),
//! [`on_search`](crate::resolve::Resolver::on_search) and
//! [`on_provides_info`](crate::resolve::Resolver::on_provides_info) as the answers come in.
use std::sync::Arc;
use vstd::prelude::*;
use crate::alpm;
use crate::cache;
use crate::depend::DependV;
use crate::flags::Flags;
use crate::model::laws as found;
use crate::model::Env;
use crate::pkg::{AurOrPkgbuild, AurPkg, PkgbuildRepo, Srcinfo, SrcinfoPkg};
use crate::resolve::aur_tree;
use crate::resolve::fetch;
use crate::resolve::fetch::NextV;
use crate::resolve::split::TargetsV;
use crate::seqs;
use crate::target::TargV;
use crate::text;

verus! {

/// What the AUR answers.
pub enum Answer {
    /// The info of packages.
    Pkgs(Seq<Arc<AurPkg>>),
    /// The names of packages.
    Names(Seq<Seq<char>>),
}

/// How far looking packages up has come.
pub struct Run<'a> {
    /// What the resolver reads.
    pub env: Env<'a>,
    /// The dependencies that have been dealt with.
    pub resolved: Set<Seq<char>>,
    /// What is to be asked for next.
    pub next: NextV,
    /// The names whose info has been asked for.
    pub asked: Set<Seq<char>>,
    /// The AUR packages that have come in as answers to what was being looked up.
    pub found: Set<Arc<AurPkg>>,
}

/// Packages of pkgbuild repos.
pub type Pkgbuilds<'a> = Set<(&'a Srcinfo, &'a SrcinfoPkg)>;

impl<'a> Run<'a> {
    /// The start: what the targets need.
    pub open spec fn start(env: Env<'a>, depth: nat, t: TargetsV<'a>) -> Run<'a> {
        let (resolved, next) = env.round(depth, Set::empty(), t.aur, t.pkgbuild, true);
        Run { env, resolved, next, asked: Set::empty(), found: Set::empty() }
    }

    /// What the resolver reads once packages have come in.
    pub open spec fn knowing(self, info: Seq<Arc<AurPkg>>) -> Env<'a> {
        Env { cache: cache::inserted_all(self.env.cache, info), ..self.env }
    }

    /// Going on with an answer. One that does not belong to the question changes nothing.
    pub open spec fn after(self, depth: nat, answer: Answer) -> Run<'a> {
        match (self.next, answer) {
            (NextV::Info { pkgs, queries }, Answer::Pkgs(info)) => {
                let env = self.knowing(info);
                let (resolved, next) = env.after_info(depth, self.resolved, pkgs, info);
                Run {
                    env,
                    resolved,
                    next,
                    asked: self.asked.union(queries.to_set()),
                    found: self.found.union(info.to_set()),
                }
            },
            (NextV::Search { pkgs, found, queries }, Answer::Names(names)) => Run {
                next: NextV::ProvidesInfo {
                    pkgs,
                    found,
                    queries: text::dedup(text::sorted(pkgs + names)),
                },
                ..self
            },
            (NextV::ProvidesInfo { pkgs, found, queries }, Answer::Pkgs(info)) => {
                let env = self.knowing(info);
                let kept = info.filter(env.provides(pkgs));
                let (resolved, next) = env.follow(depth, self.resolved, found + kept);
                Run {
                    env,
                    resolved,
                    next,
                    asked: self.asked.union(queries.to_set()),
                    found: self.found.union(kept.to_set()),
                }
            },
            _ => self,
        }
    }

    /// A run from the targets through the answers.
    pub open spec fn through(
        env: Env<'a>,
        depth: nat,
        t: TargetsV<'a>,
        answers: Seq<Answer>,
    ) -> Run<'a>
        decreases answers.len(),
    {
        if answers.len() == 0 {
            Run::start(env, depth, t)
        } else {
            Run::through(env, depth, t, answers.drop_last()).after(depth, answers.last())
        }
    }
}

/// The dependency need not be looked up: a sync package meets it or, in general, what is installed
/// does.
pub open spec fn met<'a>(env: Env<'a>, need: Seq<char>) -> bool {
    ||| env.repo_sat_silent(need) is Some
    ||| if env.flags.has(Flags::RESOLVE_SATISFIED_PKGBUILDS) {
        env.assumed((env.m.depend)(need))
    } else {
        env.sat_local((env.m.depend)(need))
    }
}

/// The dependency has been asked for by name, as `n` writes it.
pub open spec fn asked_as<'a>(
    env: Env<'a>,
    asked: Set<Seq<char>>,
    n: Seq<char>,
    dep: DependV,
) -> bool {
    (env.m.depend)(n).text == dep.text && asked.contains(text::no_ver(n))
}

/// The package of a pkgbuild repo that meets the dependency is one of `v`.
pub open spec fn visited<'a>(env: Env<'a>, v: Pkgbuilds<'a>, need: Seq<char>) -> bool {
    env.pkgbuild_dep(None, (env.m.depend)(need)) matches Some(f) && v.contains((f.1, f.2))
}

/// The dependency is met, has been asked for by name, or one of the packages `v` of pkgbuild repos
/// meets it.
pub open spec fn settled<'a>(
    env: Env<'a>,
    asked: Set<Seq<char>>,
    v: Pkgbuilds<'a>,
    need: Seq<char>,
) -> bool {
    ||| met(env, need)
    ||| exists|n: Seq<char>| #[trigger] asked_as(env, asked, n, (env.m.depend)(need))
    ||| visited(env, v, need)
}

/// Each of the dependencies is settled.
pub open spec fn all_settled<'a>(
    env: Env<'a>,
    asked: Set<Seq<char>>,
    v: Pkgbuilds<'a>,
    needs: Seq<Seq<char>>,
) -> bool {
    forall|i: int| 0 <= i < needs.len() ==> settled(env, asked, v, #[trigger] needs[i])
}

/// What each of the packages of pkgbuild repos needs is settled.
pub open spec fn closed_under<'a>(
    env: Env<'a>,
    asked: Set<Seq<char>>,
    v: Pkgbuilds<'a>,
    of: Pkgbuilds<'a>,
) -> bool {
    forall|s: &'a Srcinfo, p: &'a SrcinfoPkg| #[trigger]
        of.contains((s, p)) ==> all_settled(
            env,
            asked,
            v,
            env.needs(AurOrPkgbuild::Pkgbuild(s, p)),
        )
}

/// The packages of the targets from pkgbuild repos are among `v`.
pub open spec fn has_targets<'a>(env: Env<'a>, v: Pkgbuilds<'a>, targs: Seq<TargV>) -> bool {
    forall|i: int|
        0 <= i < targs.len() ==> (env.pkgbuild_dep(
            #[trigger] targs[i].repo,
            (env.m.depend)(targs[i].pkg),
        ) matches Some(f) ==> v.contains((f.1, f.2)))
}

/// What each of the AUR packages needs is settled.
pub open spec fn aur_closed<'a>(
    env: Env<'a>,
    asked: Set<Seq<char>>,
    v: Pkgbuilds<'a>,
    found: Set<Arc<AurPkg>>,
) -> bool {
    forall|q: Arc<AurPkg>| #[trigger]
        found.contains(q) ==> all_settled(env, asked, v, env.aur_needs()(q))
}

/// The AUR targets have been asked for. Unless dependencies are left out, `v` holds the packages of
/// the targets from pkgbuild repos, and what the packages of `v` and the AUR packages that came in
/// need is settled.
pub open spec fn looked_up<'a>(run: Run<'a>, t: TargetsV<'a>, v: Pkgbuilds<'a>) -> bool {
    &&& forall|i: int| 0 <= i < t.aur.len() ==> run.asked.contains(text::no_ver(#[trigger] t.aur[i]))
    &&& !run.env.flags.has(Flags::NO_DEPS) ==> {
        &&& has_targets(run.env, v, t.pkgbuild)
        &&& closed_under(run.env, run.asked, v, v)
        &&& aur_closed(run.env, run.asked, v, run.found)
    }
}

impl<'a> Env<'a> {
    /// The packages of pkgbuild repos that a target from them leads to.
    spec fn visits(self, depth: nat, resolved: Set<Seq<char>>, targ: TargV) -> Pkgbuilds<'a>
        decreases depth, 1nat, 0nat,
    {
        if self.flags.has(Flags::NO_DEPS) {
            Set::empty()
        } else {
            match self.pkgbuild_dep(targ.repo, (self.m.depend)(targ.pkg)) {
                None => Set::empty(),
                Some((_, s, p)) => self.nested_visits(
                    depth,
                    resolved,
                    aur_tree::dep_texts(
                        self.m,
                        self.needs(AurOrPkgbuild::Pkgbuild(s, p)).filter(
                            self.wants_pkgbuild(resolved),
                        ),
                    ),
                ).insert((s, p)),
            }
        }
    }

    /// The packages of pkgbuild repos that the dependencies lead to.
    spec fn nested_visits(
        self,
        depth: nat,
        resolved: Set<Seq<char>>,
        deps: Seq<Seq<char>>,
    ) -> Pkgbuilds<'a>
        decreases depth, 0nat, deps.len(),
    {
        if deps.len() == 0 || depth == 0 {
            Set::empty()
        } else {
            let targ = TargV { repo: None, pkg: deps[0] };
            match self.pkgbuild_needs((depth - 1) as nat, resolved, targ) {
                None => Set::empty(),
                Some((after, _)) => self.visits((depth - 1) as nat, resolved, targ).union(
                    self.nested_visits(depth, after, deps.drop_first()),
                ),
            }
        }
    }

    /// The packages of pkgbuild repos that the targets from them lead to.
    spec fn targets_visits(self, depth: nat, resolved: Set<Seq<char>>, targs: Seq<TargV>) -> Pkgbuilds<
        'a,
    >
        decreases targs.len(),
    {
        if targs.len() == 0 {
            Set::empty()
        } else {
            match self.pkgbuild_needs(depth, resolved, targs[0]) {
                None => Set::empty(),
                Some((after, _)) => self.visits(depth, resolved, targs[0]).union(
                    self.targets_visits(depth, after, targs.drop_first()),
                ),
            }
        }
    }
}

/// What a dependency that has been dealt with is written as in one place: there it has been asked
/// for or a package of `v` meets it.
spec fn dealt_as<'a>(
    env: Env<'a>,
    names: Set<Seq<char>>,
    v: Pkgbuilds<'a>,
    n: Seq<char>,
    dep: Seq<char>,
) -> bool {
    (env.m.depend)(n).text == dep && (names.contains(text::no_ver(n)) || visited(env, v, n))
}

/// Each of the dependencies that have been dealt with has been asked for or a package of `v` meets it.
spec fn all_dealt<'a>(
    env: Env<'a>,
    names: Set<Seq<char>>,
    v: Pkgbuilds<'a>,
    resolved: Set<Seq<char>>,
) -> bool {
    forall|dep: Seq<char>| #[trigger]
        resolved.contains(dep) ==> exists|n: Seq<char>| #[trigger] dealt_as(env, names, v, n, dep)
}

/// The names of the dependencies are among `names`.
spec fn all_named(names: Set<Seq<char>>, needs: Seq<Seq<char>>) -> bool {
    forall|i: int| 0 <= i < needs.len() ==> names.contains(text::no_ver(#[trigger] needs[i]))
}

/// What has been dealt with is settled.
proof fn lemma_dealt<'a>(
    env: Env<'a>,
    names: Set<Seq<char>>,
    v: Pkgbuilds<'a>,
    resolved: Set<Seq<char>>,
    need: Seq<char>,
)
    requires
        alpm::reads_back(env.m.depend),
        all_dealt(env, names, v, resolved),
        resolved.contains((env.m.depend)(need).text),
    ensures
        settled(env, names, v, need),
{
    let dep = (env.m.depend)(need);
    let n = choose|n: Seq<char>| #[trigger] dealt_as(env, names, v, n, dep.text);
    assert((env.m.depend)((env.m.depend)(n).text) == (env.m.depend)(n));
    assert((env.m.depend)((env.m.depend)(need).text) == (env.m.depend)(need));
    if names.contains(text::no_ver(n)) {
        assert(asked_as(env, names, n, dep));
    } else {
        assert(visited(env, v, need));
    }
}

/// What a target from a pkgbuild repo leads to.
proof fn lemma_visits<'a>(
    env: Env<'a>,
    depth: nat,
    resolved: Set<Seq<char>>,
    targ: TargV,
    names: Set<Seq<char>>,
    v: Pkgbuilds<'a>,
)
    requires
        !env.flags.has(Flags::NO_DEPS),
        alpm::reads_back(env.m.depend),
        env.pkgbuild_needs(depth, resolved, targ) is Some,
        all_named(names, (env.pkgbuild_needs(depth, resolved, targ)->0).1),
        env.visits(depth, resolved, targ).subset_of(v),
        all_dealt(env, names, v, resolved),
    ensures
        closed_under(env, names, v, env.visits(depth, resolved, targ)),
        all_dealt(env, names, v, (env.pkgbuild_needs(depth, resolved, targ)->0).0),
        env.pkgbuild_dep(targ.repo, (env.m.depend)(targ.pkg)) matches Some(f) ==> env.visits(
            depth,
            resolved,
            targ,
        ).contains((f.1, f.2)),
    decreases depth, 1nat, 0nat,
{
    if let Some((_, s, p)) = env.pkgbuild_dep(targ.repo, (env.m.depend)(targ.pkg)) {
        let needs = env.needs(AurOrPkgbuild::Pkgbuild(s, p));
        let a = env.wants_aur(resolved);
        let b = env.wants_pkgbuild(resolved);
        let own = needs.filter(a);
        let inner = needs.filter(b);
        let nested = aur_tree::dep_texts(env.m, inner);
        let (mid, more) = env.nested_needs(depth, resolved, nested)->0;
        let (after, all) = env.pkgbuild_needs(depth, resolved, targ)->0;
        let texts = aur_tree::dep_texts(env.m, own);
        assert(all == own + more);
        assert(after == mid.union(texts.to_set()));
        assert forall|i: int| 0 <= i < more.len() implies names.contains(
            text::no_ver(#[trigger] more[i]),
        ) by {
            assert(all[own.len() + i] == more[i]);
        }
        lemma_nested_visits(env, depth, resolved, nested, names, v);
        assert forall|k: int| 0 <= k < needs.len() implies settled(
            env,
            names,
            v,
            #[trigger] needs[k],
        ) by {
            let need = needs[k];
            if !met(env, need) {
                if resolved.contains((env.m.depend)(need).text) {
                    lemma_dealt(env, names, v, resolved, need);
                } else {
                    assert(env.wants(resolved, need));
                    assert(needs.contains(need));
                    if env.in_pkgbuilds()(need) {
                        seqs::lemma_filter_contains(needs, b, need);
                        let j = choose|j: int| 0 <= j < inner.len() && inner[j] == need;
                        assert(nested[j] == (env.m.depend)(need).text);
                        assert((env.m.depend)(nested[j]) == (env.m.depend)(need));
                        assert(visited(env, env.nested_visits(depth, resolved, nested), nested[j]));
                        assert(visited(env, v, need));
                    } else {
                        seqs::lemma_filter_contains(needs, a, need);
                        let j = choose|j: int| 0 <= j < own.len() && own[j] == need;
                        assert(all[j] == need);
                        assert(asked_as(env, names, need, (env.m.depend)(need)));
                    }
                }
            }
        }
        assert forall|dep: Seq<char>| #[trigger] after.contains(dep) implies exists|n: Seq<char>|
            #[trigger] dealt_as(env, names, v, n, dep) by {
            if !mid.contains(dep) {
                assert(texts.contains(dep));
                let j = choose|j: int| 0 <= j < texts.len() && texts[j] == dep;
                assert(all[j] == own[j]);
                assert(dealt_as(env, names, v, own[j], dep));
            }
        }
    }
}

/// What dependencies on packages of pkgbuild repos lead to.
proof fn lemma_nested_visits<'a>(
    env: Env<'a>,
    depth: nat,
    resolved: Set<Seq<char>>,
    deps: Seq<Seq<char>>,
    names: Set<Seq<char>>,
    v: Pkgbuilds<'a>,
)
    requires
        !env.flags.has(Flags::NO_DEPS),
        alpm::reads_back(env.m.depend),
        env.nested_needs(depth, resolved, deps) is Some,
        all_named(names, (env.nested_needs(depth, resolved, deps)->0).1),
        env.nested_visits(depth, resolved, deps).subset_of(v),
        all_dealt(env, names, v, resolved),
    ensures
        closed_under(env, names, v, env.nested_visits(depth, resolved, deps)),
        all_dealt(env, names, v, (env.nested_needs(depth, resolved, deps)->0).0),
        forall|i: int|
            0 <= i < deps.len() && env.in_pkgbuilds()(#[trigger] deps[i]) ==> visited(
                env,
                env.nested_visits(depth, resolved, deps),
                deps[i],
            ),
    decreases depth, 0nat, deps.len(),
{
    if deps.len() > 0 {
        let targ = TargV { repo: None, pkg: deps[0] };
        let rest = deps.drop_first();
        let d = (depth - 1) as nat;
        let (after, head) = env.pkgbuild_needs(d, resolved, targ)->0;
        let (end, tail) = env.nested_needs(depth, after, rest)->0;
        let all = (env.nested_needs(depth, resolved, deps)->0).1;
        assert(all == head + tail);
        assert forall|i: int| 0 <= i < head.len() implies names.contains(
            text::no_ver(#[trigger] head[i]),
        ) by {
            assert(all[i] == head[i]);
        }
        assert forall|i: int| 0 <= i < tail.len() implies names.contains(
            text::no_ver(#[trigger] tail[i]),
        ) by {
            assert(all[head.len() + i] == tail[i]);
        }
        let x = env.visits(d, resolved, targ);
        let y = env.nested_visits(depth, after, rest);
        assert(env.nested_visits(depth, resolved, deps) == x.union(y));
        assert(x.subset_of(v));
        assert(y.subset_of(v));
        lemma_visits(env, d, resolved, targ, names, v);
        lemma_nested_visits(env, depth, after, rest, names, v);
        assert forall|i: int|
            0 <= i < deps.len() && env.in_pkgbuilds()(#[trigger] deps[i]) implies visited(
            env,
            env.nested_visits(depth, resolved, deps),
            deps[i],
        ) by {
            if i > 0 {
                assert(rest[i - 1] == deps[i]);
            }
        }
    }
}

/// What targets from pkgbuild repos lead to.
proof fn lemma_targets_visits<'a>(
    env: Env<'a>,
    depth: nat,
    resolved: Set<Seq<char>>,
    targs: Seq<TargV>,
    names: Set<Seq<char>>,
    v: Pkgbuilds<'a>,
)
    requires
        !env.flags.has(Flags::NO_DEPS),
        alpm::reads_back(env.m.depend),
        env.targets_needs(depth, resolved, targs) is Some,
        all_named(names, (env.targets_needs(depth, resolved, targs)->0).1),
        env.targets_visits(depth, resolved, targs).subset_of(v),
        all_dealt(env, names, v, resolved),
    ensures
        closed_under(env, names, v, env.targets_visits(depth, resolved, targs)),
        all_dealt(env, names, v, (env.targets_needs(depth, resolved, targs)->0).0),
    decreases targs.len(),
{
    if targs.len() > 0 {
        let rest = targs.drop_first();
        let (after, head) = env.pkgbuild_needs(depth, resolved, targs[0])->0;
        let (end, tail) = env.targets_needs(depth, after, rest)->0;
        let all = (env.targets_needs(depth, resolved, targs)->0).1;
        assert(all == head + tail);
        assert forall|i: int| 0 <= i < head.len() implies names.contains(
            text::no_ver(#[trigger] head[i]),
        ) by {
            assert(all[i] == head[i]);
        }
        assert forall|i: int| 0 <= i < tail.len() implies names.contains(
            text::no_ver(#[trigger] tail[i]),
        ) by {
            assert(all[head.len() + i] == tail[i]);
        }
        let x = env.visits(depth, resolved, targs[0]);
        let y = env.targets_visits(depth, after, rest);
        assert(env.targets_visits(depth, resolved, targs) == x.union(y));
        assert(x.subset_of(v));
        assert(y.subset_of(v));
        lemma_visits(env, depth, resolved, targs[0], names, v);
        lemma_targets_visits(env, depth, after, rest, names, v);
    }
}

/// The packages of the targets are among what they lead to.
proof fn lemma_has_targets<'a>(
    env: Env<'a>,
    depth: nat,
    resolved: Set<Seq<char>>,
    targs: Seq<TargV>,
)
    requires
        !env.flags.has(Flags::NO_DEPS),
        env.targets_needs(depth, resolved, targs) is Some,
    ensures
        has_targets(env, env.targets_visits(depth, resolved, targs), targs),
    decreases targs.len(),
{
    if targs.len() > 0 {
        let rest = targs.drop_first();
        let (after, head) = env.pkgbuild_needs(depth, resolved, targs[0])->0;
        lemma_has_targets(env, depth, after, rest);
        assert forall|i: int| 0 <= i < targs.len() implies (env.pkgbuild_dep(
            #[trigger] targs[i].repo,
            (env.m.depend)(targs[i].pkg),
        ) matches Some(f) ==> env.targets_visits(depth, resolved, targs).contains((f.1, f.2))) by {
            if i > 0 {
                assert(rest[i - 1] == targs[i]);
            }
        }
    }
}

/// The names that are about to be asked for.
spec fn pending(next: NextV) -> Set<Seq<char>> {
    match next {
        NextV::Info { queries, .. } => queries.to_set(),
        NextV::Search { pkgs, .. } => pkgs.to_set(),
        NextV::ProvidesInfo { queries, .. } => queries.to_set(),
        NextV::Done => Set::empty(),
        NextV::TooDeep => Set::empty(),
    }
}

/// The packages whose needs are put off until providers have come in.
spec fn waiting(next: NextV) -> Set<Arc<AurPkg>> {
    match next {
        NextV::Search { found, .. } => found.to_set(),
        NextV::ProvidesInfo { found, .. } => found.to_set(),
        _ => Set::empty(),
    }
}

/// What is asked for covers what is to be looked up, and nothing is put off.
proof fn lemma_lookup<'a>(env: Env<'a>, pkgs: Seq<Seq<char>>, target: bool)
    ensures
        all_named(pending(env.lookup(pkgs, target)), pkgs),
        waiting(env.lookup(pkgs, target)) == Set::<Arc<AurPkg>>::empty(),
        !(env.lookup(pkgs, target) is TooDeep),
{
    let names = fetch::no_vers(pkgs);
    let queries = text::dedup(text::sorted(names));
    lemma_queries(names);
    assert forall|i: int| 0 <= i < pkgs.len() implies queries.contains(
        text::no_ver(#[trigger] pkgs[i]),
    ) by {
        assert(names[i] == text::no_ver(pkgs[i]));
        assert(names.contains(names[i]));
    }
    assert(Seq::<Arc<AurPkg>>::empty().to_set() =~= Set::<Arc<AurPkg>>::empty());
}

/// Sorting names and dropping repeats loses none.
proof fn lemma_queries(names: Seq<Seq<char>>)
    ensures
        forall|x: Seq<char>| #[trigger]
            text::dedup(text::sorted(names)).contains(x) <==> names.contains(x),
{
    let sorted = text::sorted(names);
    text::lemma_sorted(names);
    text::lemma_dedup(sorted);
    assert forall|x: Seq<char>| sorted.contains(x) <==> names.contains(x) by {
        names.to_multiset_ensures();
        sorted.to_multiset_ensures();
        assert(sorted.to_multiset().count(x) == names.to_multiset().count(x));
    }
}

/// Each dependency that has been dealt with had been before, or is to be looked up.
spec fn accounts<'a>(env: Env<'a>, resolved: Set<Seq<char>>, l: fetch::Lookup) -> bool {
    forall|dep: Seq<char>| #[trigger]
        l.0.contains(dep) ==> resolved.contains(dep) || exists|i: int|
            0 <= i < l.1.len() && (env.m.depend)(#[trigger] l.1[i]).text == dep
}

/// What is to be looked up accounts for what has been dealt with.
proof fn lemma_fresh<'a>(env: Env<'a>, resolved: Set<Seq<char>>, needs: Seq<Seq<char>>)
    ensures
        accounts(env, resolved, env.fresh(resolved, needs)),
    decreases needs.len(),
{
    if needs.len() > 0 {
        let rest = needs.drop_first();
        let t = (env.m.depend)(needs[0]).text;
        let l = env.fresh(resolved, needs);
        if env.wants(resolved, needs[0]) {
            let m = env.fresh(resolved.insert(t), rest);
            lemma_fresh(env, resolved.insert(t), rest);
            assert(l.1 == seq![needs[0]] + m.1);
            assert forall|dep: Seq<char>| #[trigger] l.0.contains(dep) implies resolved.contains(
                dep,
            ) || exists|i: int|
                0 <= i < l.1.len() && (env.m.depend)(#[trigger] l.1[i]).text == dep by {
                if dep == t {
                    assert(l.1[0] == needs[0]);
                } else if !resolved.contains(dep) {
                    assert(m.0.contains(dep));
                    let i = choose|i: int|
                        0 <= i < m.1.len() && (env.m.depend)(#[trigger] m.1[i]).text == dep;
                    assert(l.1[i + 1] == m.1[i]);
                }
            }
        } else {
            lemma_fresh(env, resolved, rest);
        }
    }
}

/// With more names and packages what holds still does.
proof fn lemma_more<'a>(
    env: Env<'a>,
    names: Set<Seq<char>>,
    v: Pkgbuilds<'a>,
    names2: Set<Seq<char>>,
    v2: Pkgbuilds<'a>,
)
    requires
        names.subset_of(names2),
        v.subset_of(v2),
    ensures
        forall|needs: Seq<Seq<char>>| #[trigger]
            all_settled(env, names, v, needs) ==> all_settled(env, names2, v2, needs),
        forall|of: Pkgbuilds<'a>| #[trigger]
            closed_under(env, names, v, of) ==> closed_under(env, names2, v2, of),
        forall|resolved: Set<Seq<char>>| #[trigger]
            all_dealt(env, names, v, resolved) ==> all_dealt(env, names2, v2, resolved),
        forall|found: Set<Arc<AurPkg>>| #[trigger]
            aur_closed(env, names, v, found) ==> aur_closed(env, names2, v2, found),
{
    assert forall|need: Seq<char>| #[trigger] settled(env, names, v, need) implies settled(
        env,
        names2,
        v2,
        need,
    ) by {
        if exists|n: Seq<char>| #[trigger] asked_as(env, names, n, (env.m.depend)(need)) {
            let n = choose|n: Seq<char>| #[trigger] asked_as(env, names, n, (env.m.depend)(need));
            assert(asked_as(env, names2, n, (env.m.depend)(need)));
        }
    }
    assert forall|needs: Seq<Seq<char>>| #[trigger]
        all_settled(env, names, v, needs) implies all_settled(env, names2, v2, needs) by {
        assert forall|i: int| 0 <= i < needs.len() implies settled(
            env,
            names2,
            v2,
            #[trigger] needs[i],
        ) by {
            assert(settled(env, names, v, needs[i]));
        }
    }
    assert forall|of: Pkgbuilds<'a>| #[trigger]
        closed_under(env, names, v, of) implies closed_under(env, names2, v2, of) by {
        assert forall|s: &'a Srcinfo, p: &'a SrcinfoPkg| #[trigger]
            of.contains((s, p)) implies all_settled(
            env,
            names2,
            v2,
            env.needs(AurOrPkgbuild::Pkgbuild(s, p)),
        ) by {
            assert(all_settled(env, names, v, env.needs(AurOrPkgbuild::Pkgbuild(s, p))));
        }
    }
    assert forall|found: Set<Arc<AurPkg>>| #[trigger]
        aur_closed(env, names, v, found) implies aur_closed(env, names2, v2, found) by {
        assert forall|q: Arc<AurPkg>| #[trigger] found.contains(q) implies all_settled(
            env,
            names2,
            v2,
            env.aur_needs()(q),
        ) by {
            assert(all_settled(env, names, v, env.aur_needs()(q)));
        }
    }
    assert forall|resolved: Set<Seq<char>>| #[trigger]
        all_dealt(env, names, v, resolved) implies all_dealt(env, names2, v2, resolved) by {
        assert forall|dep: Seq<char>| #[trigger] resolved.contains(dep) implies exists|n: Seq<char>|
            #[trigger] dealt_as(env, names2, v2, n, dep) by {
            let n = choose|n: Seq<char>| #[trigger] dealt_as(env, names, v, n, dep);
            assert(dealt_as(env, names2, v2, n, dep));
        }
    }
}

/// What is found in pkgbuild repos does not depend on the AUR packages that are known.
proof fn lemma_pkgbuild_dep<'a>(
    env: Env<'a>,
    known: Env<'a>,
    repos: Seq<PkgbuildRepo<'a>>,
    repo: Option<Seq<char>>,
    dep: DependV,
)
    requires
        known == (Env { cache: known.cache, ..env }),
    ensures
        known.pkgbuild_dep_in(repos, repo, dep) == env.pkgbuild_dep_in(repos, repo, dep),
    decreases repos.len(),
{
    assert(known.srcinfo_has(dep) =~= env.srcinfo_has(dep));
    if repos.len() > 0 {
        lemma_pkgbuild_dep(env, known, repos.drop_first(), repo, dep);
    }
}

/// With more AUR packages known what holds still does.
proof fn lemma_known<'a>(
    env: Env<'a>,
    known: Env<'a>,
    names: Set<Seq<char>>,
    v: Pkgbuilds<'a>,
    resolved: Set<Seq<char>>,
    found: Set<Arc<AurPkg>>,
    targs: Seq<TargV>,
)
    requires
        known == (Env { cache: known.cache, ..env }),
    ensures
        closed_under(env, names, v, v) ==> closed_under(known, names, v, v),
        all_dealt(env, names, v, resolved) ==> all_dealt(known, names, v, resolved),
        aur_closed(env, names, v, found) ==> aur_closed(known, names, v, found),
        has_targets(env, v, targs) ==> has_targets(known, v, targs),
{
    assert forall|repo: Option<Seq<char>>, dep: DependV| #[trigger]
        known.pkgbuild_dep(repo, dep) == env.pkgbuild_dep(repo, dep) by {
        lemma_pkgbuild_dep(env, known, env.repos, repo, dep);
    }
    assert forall|need: Seq<char>| #[trigger] visited(known, v, need) == visited(env, v, need) by {}
    assert forall|need: Seq<char>| #[trigger] met(known, need) == met(env, need) by {
        let dep = (env.m.depend)(need);
        assert(known.repo_sat_silent(need) == env.repo_sat_silent(need));
        assert(known.sat_local(dep) == env.sat_local(dep));
        assert(known.nover() == env.nover());
        assert(known.assumed(dep) == env.assumed(dep));
    }
    assert forall|n: Seq<char>, dep: DependV| #[trigger]
        asked_as(known, names, n, dep) == asked_as(env, names, n, dep) by {}
    assert forall|need: Seq<char>| #[trigger]
        settled(env, names, v, need) implies settled(known, names, v, need) by {
        if exists|n: Seq<char>| #[trigger] asked_as(env, names, n, (env.m.depend)(need)) {
            let n = choose|n: Seq<char>| #[trigger] asked_as(env, names, n, (env.m.depend)(need));
            assert(asked_as(known, names, n, (known.m.depend)(need)));
        }
    }
    assert forall|needs: Seq<Seq<char>>| #[trigger]
        all_settled(env, names, v, needs) implies all_settled(known, names, v, needs) by {
        assert forall|i: int| 0 <= i < needs.len() implies settled(
            known,
            names,
            v,
            #[trigger] needs[i],
        ) by {
            assert(settled(env, names, v, needs[i]));
        }
    }
    if closed_under(env, names, v, v) {
        assert forall|s: &'a Srcinfo, p: &'a SrcinfoPkg| #[trigger]
            v.contains((s, p)) implies all_settled(
            known,
            names,
            v,
            known.needs(AurOrPkgbuild::Pkgbuild(s, p)),
        ) by {
            assert(all_settled(env, names, v, env.needs(AurOrPkgbuild::Pkgbuild(s, p))));
        }
    }
    if aur_closed(env, names, v, found) {
        assert forall|q: Arc<AurPkg>| #[trigger] found.contains(q) implies all_settled(
            known,
            names,
            v,
            known.aur_needs()(q),
        ) by {
            assert(all_settled(env, names, v, env.aur_needs()(q)));
        }
    }
    if all_dealt(env, names, v, resolved) {
        assert forall|dep: Seq<char>| #[trigger] resolved.contains(dep) implies exists|n: Seq<char>|
            #[trigger] dealt_as(known, names, v, n, dep) by {
            let n = choose|n: Seq<char>| #[trigger] dealt_as(env, names, v, n, dep);
            assert(dealt_as(known, names, v, n, dep));
        }
    }
}

/// One round.
proof fn lemma_round<'a>(
    env: Env<'a>,
    depth: nat,
    resolved: Set<Seq<char>>,
    pkgs: Seq<Seq<char>>,
    targs: Seq<TargV>,
    target: bool,
    asked: Set<Seq<char>>,
    v: Pkgbuilds<'a>,
)
    requires
        !env.flags.has(Flags::NO_DEPS),
        alpm::reads_back(env.m.depend),
        env.targets_needs(depth, resolved, targs) is Some,
        closed_under(env, asked, v, v),
        all_dealt(
            env,
            asked.union(pending(env.round(depth, resolved, pkgs, targs, target).1)),
            v.union(env.targets_visits(depth, resolved, targs)),
            resolved,
        ),
    ensures
        ({
            let (after, next) = env.round(depth, resolved, pkgs, targs, target);
            let names = asked.union(pending(next));
            let w = v.union(env.targets_visits(depth, resolved, targs));
            &&& closed_under(env, names, w, w)
            &&& all_dealt(env, names, w, after)
        }),
{
    let (after, next) = env.round(depth, resolved, pkgs, targs, target);
    let needs = (env.targets_needs(depth, resolved, targs)->0).1;
    let names = asked.union(pending(next));
    let x = env.targets_visits(depth, resolved, targs);
    let w = v.union(x);
    let all = needs + pkgs;
    lemma_lookup(env, all, target);
    assert forall|i: int| 0 <= i < needs.len() implies names.contains(
        text::no_ver(#[trigger] needs[i]),
    ) by {
        assert(all[i] == needs[i]);
    }
    lemma_targets_visits(env, depth, resolved, targs, names, w);
    lemma_more(env, asked, v, names, w);
    assert(closed_under(env, names, w, v));
    assert(closed_under(env, names, w, x));
}

/// Following packages.
proof fn lemma_follow<'a>(
    env: Env<'a>,
    depth: nat,
    resolved: Set<Seq<char>>,
    found: Seq<Arc<AurPkg>>,
    asked: Set<Seq<char>>,
    v: Pkgbuilds<'a>,
) -> (w: Pkgbuilds<'a>)
    requires
        !env.flags.has(Flags::NO_DEPS),
        alpm::reads_back(env.m.depend),
        !(env.follow(depth, resolved, found).1 is TooDeep),
        closed_under(env, asked, v, v),
        all_dealt(env, asked, v, resolved),
    ensures
        v.subset_of(w),
        ({
            let (after, next) = env.follow(depth, resolved, found);
            let names = asked.union(pending(next));
            &&& closed_under(env, names, w, w)
            &&& all_dealt(env, names, w, after)
            &&& aur_closed(env, names, w, found.to_set())
            &&& waiting(next) == Set::<Arc<AurPkg>>::empty()
        }),
{
    let (after, next) = env.follow(depth, resolved, found);
    let names = asked.union(pending(next));
    let needs = seqs::flat(found, env.aur_needs());
    let (r, new) = env.fresh(resolved, needs);
    fetch::law_looked_up_once(env, resolved, needs);
    lemma_fresh(env, resolved, needs);
    let own = new.filter(env.not_in_pkgbuilds());
    let inner = new.filter(env.in_pkgbuilds());
    let targs = fetch::any_repo(inner);
    let w = if new.len() == 0 {
        v
    } else {
        v.union(env.targets_visits(depth, r, targs))
    };
    lemma_more(env, asked, v, names, w);
    if new.len() > 0 {
        let more = (env.targets_needs(depth, r, targs)->0).1;
        let all = more + own;
        lemma_lookup(env, all, false);
        lemma_has_targets(env, depth, r, targs);
        assert forall|dep: Seq<char>| #[trigger] r.contains(dep) implies exists|n: Seq<char>|
            #[trigger] dealt_as(env, names, w, n, dep) by {
            if !resolved.contains(dep) {
                let i = choose|i: int|
                    0 <= i < new.len() && (env.m.depend)(#[trigger] new[i]).text == dep;
                let n = new[i];
                assert(new.contains(n));
                if env.in_pkgbuilds()(n) {
                    seqs::lemma_filter_contains(new, env.in_pkgbuilds(), n);
                    let k = choose|k: int| 0 <= k < inner.len() && inner[k] == n;
                    assert(targs[k].pkg == n);
                    assert(targs[k].repo is None);
                    assert(visited(env, w, n));
                } else {
                    seqs::lemma_filter_contains(new, env.not_in_pkgbuilds(), n);
                    let k = choose|k: int| 0 <= k < own.len() && own[k] == n;
                    assert(all[more.len() + k] == n);
                }
                assert(dealt_as(env, names, w, n, dep));
            }
        }
        lemma_round(env, depth, r, own, targs, false, asked, v);
    } else {
        assert(r =~= resolved);
    }
    assert(all_dealt(env, names, w, r));
    assert forall|q: Arc<AurPkg>| #[trigger] found.to_set().contains(q) implies all_settled(
        env,
        names,
        w,
        env.aur_needs()(q),
    ) by {
        let i = choose|i: int| 0 <= i < found.len() && found[i] == q;
        let mine = env.aur_needs()(q);
        assert forall|k: int| 0 <= k < mine.len() implies settled(
            env,
            names,
            w,
            #[trigger] mine[k],
        ) by {
            let need = mine[k];
            assert(env.aur_needs()(found[i]).contains(need));
            seqs::lemma_flat(found, env.aur_needs(), i, need);
            let j = choose|j: int| 0 <= j < needs.len() && needs[j] == need;
            if !met(env, need) {
                if !resolved.contains((env.m.depend)(need).text) {
                    assert(env.wants(resolved, needs[j]));
                }
                lemma_dealt(env, names, w, r, need);
            }
        }
    }
    w
}

/// What holds of a run: all that has been dealt with has been asked for, is about to be, or is met by
/// a package of `v`.
spec fn holds<'a>(run: Run<'a>, t: TargetsV<'a>, v: Pkgbuilds<'a>) -> bool {
    let names = run.asked.union(pending(run.next));
    run.next is TooDeep || {
        &&& all_named(names, t.aur)
        &&& !run.env.flags.has(Flags::NO_DEPS) ==> {
            &&& has_targets(run.env, v, t.pkgbuild)
            &&& closed_under(run.env, names, v, v)
            &&& all_dealt(run.env, names, v, run.resolved)
            &&& aur_closed(run.env, names, v, run.found.difference(waiting(run.next)))
        }
    }
}

/// It holds at the start.
proof fn lemma_start<'a>(env: Env<'a>, depth: nat, t: TargetsV<'a>) -> (v: Pkgbuilds<'a>)
    requires
        alpm::reads_back(env.m.depend),
    ensures
        holds(Run::start(env, depth, t), t, v),
{
    let none = Set::<Seq<char>>::empty();
    let run = Run::start(env, depth, t);
    let v = env.targets_visits(depth, none, t.pkgbuild);
    let names = run.asked.union(pending(run.next));
    if env.targets_needs(depth, none, t.pkgbuild) is Some {
        let more = (env.targets_needs(depth, none, t.pkgbuild)->0).1;
        let all = more + t.aur;
        lemma_lookup(env, all, true);
        assert forall|i: int| 0 <= i < t.aur.len() implies names.contains(
            text::no_ver(#[trigger] t.aur[i]),
        ) by {
            assert(all[more.len() + i] == t.aur[i]);
        }
        if !env.flags.has(Flags::NO_DEPS) {
            let empty = Set::<(&'a Srcinfo, &'a SrcinfoPkg)>::empty();
            lemma_has_targets(env, depth, none, t.pkgbuild);
            lemma_round(env, depth, none, t.aur, t.pkgbuild, true, run.asked, empty);
            assert(empty.union(v) =~= v);
        }
    }
    v
}

/// The info of packages keeps it.
proof fn lemma_after_info<'a>(
    run: Run<'a>,
    depth: nat,
    info: Seq<Arc<AurPkg>>,
    t: TargetsV<'a>,
    v: Pkgbuilds<'a>,
) -> (w: Pkgbuilds<'a>)
    requires
        alpm::reads_back(run.env.m.depend),
        run.next is Info,
        holds(run, t, v),
    ensures
        holds(run.after(depth, Answer::Pkgs(info)), t, w),
{
    let end = run.after(depth, Answer::Pkgs(info));
    let names = run.asked.union(pending(run.next));
    let after = end.asked.union(pending(end.next));
    let old = run.found.difference(waiting(run.next));
    let pkgs = run.next->Info_pkgs;
    let missing = aur_tree::dep_texts(end.env.m, pkgs.filter(end.env.unmet(info)));
    assert(old =~= run.found);
    assert(names =~= end.asked);
    assert(all_named(after, t.aur));
    if run.env.flags.has(Flags::NO_DEPS) || end.next is TooDeep {
        v
    } else {
        lemma_known(run.env, end.env, names, v, run.resolved, old, t.pkgbuild);
        if (end.env.flags.has(Flags::PROVIDES) || end.env.flags.has(Flags::MISSING_PROVIDES))
            && missing.len() > 0 {
            lemma_more(end.env, names, v, after, v);
            assert forall|q: Arc<AurPkg>| #[trigger]
                end.found.difference(waiting(end.next)).contains(q) implies all_settled(
                end.env,
                after,
                v,
                end.env.aur_needs()(q),
            ) by {
                assert(old.contains(q));
            }
            v
        } else {
            let w = lemma_follow(end.env, depth, run.resolved, info, end.asked, v);
            lemma_more(end.env, names, v, after, w);
            assert forall|q: Arc<AurPkg>| #[trigger]
                end.found.difference(waiting(end.next)).contains(q) implies all_settled(
                end.env,
                after,
                w,
                end.env.aur_needs()(q),
            ) by {
                if !old.contains(q) {
                    assert(info.to_set().contains(q));
                }
            }
            w
        }
    }
}

/// The names of providers keep it.
proof fn lemma_after_search<'a>(
    run: Run<'a>,
    depth: nat,
    more: Seq<Seq<char>>,
    t: TargetsV<'a>,
    v: Pkgbuilds<'a>,
)
    requires
        run.next is Search,
        holds(run, t, v),
    ensures
        holds(run.after(depth, Answer::Names(more)), t, v),
{
    let end = run.after(depth, Answer::Names(more));
    let names = run.asked.union(pending(run.next));
    let after = end.asked.union(pending(end.next));
    let pkgs = run.next->Search_pkgs;
    let all = pkgs + more;
    lemma_queries(all);
    assert forall|x: Seq<char>| names.contains(x) implies after.contains(x) by {
        if pkgs.contains(x) {
            let i = choose|i: int| 0 <= i < pkgs.len() && pkgs[i] == x;
            assert(all[i] == x);
            assert(all.contains(x));
        }
    }
    lemma_more(run.env, names, v, after, v);
}

/// The info of providers keeps it.
proof fn lemma_after_provides<'a>(
    run: Run<'a>,
    depth: nat,
    info: Seq<Arc<AurPkg>>,
    t: TargetsV<'a>,
    v: Pkgbuilds<'a>,
) -> (w: Pkgbuilds<'a>)
    requires
        alpm::reads_back(run.env.m.depend),
        run.next is ProvidesInfo,
        holds(run, t, v),
    ensures
        holds(run.after(depth, Answer::Pkgs(info)), t, w),
{
    let end = run.after(depth, Answer::Pkgs(info));
    let names = run.asked.union(pending(run.next));
    let after = end.asked.union(pending(end.next));
    let old = run.found.difference(waiting(run.next));
    let found = run.next->ProvidesInfo_found;
    let kept = info.filter(end.env.provides(run.next->ProvidesInfo_pkgs));
    let both = found + kept;
    assert(names =~= end.asked);
    assert(all_named(after, t.aur));
    if run.env.flags.has(Flags::NO_DEPS) || end.next is TooDeep {
        v
    } else {
        lemma_known(run.env, end.env, names, v, run.resolved, old, t.pkgbuild);
        let w = lemma_follow(end.env, depth, run.resolved, both, end.asked, v);
        lemma_more(end.env, names, v, after, w);
        assert forall|q: Arc<AurPkg>| #[trigger]
            end.found.difference(waiting(end.next)).contains(q) implies all_settled(
            end.env,
            after,
            w,
            end.env.aur_needs()(q),
        ) by {
            if !old.contains(q) {
                if found.contains(q) {
                    let i = choose|i: int| 0 <= i < found.len() && found[i] == q;
                    assert(both[i] == q);
                } else {
                    assert(kept.to_set().contains(q));
                    let i = choose|i: int| 0 <= i < kept.len() && kept[i] == q;
                    assert(both[found.len() + i] == q);
                }
                assert(both.to_set().contains(q));
            }
        }
        w
    }
}

/// An answer keeps it.
proof fn lemma_after<'a>(
    run: Run<'a>,
    depth: nat,
    answer: Answer,
    t: TargetsV<'a>,
    v: Pkgbuilds<'a>,
) -> (w: Pkgbuilds<'a>)
    requires
        alpm::reads_back(run.env.m.depend),
        holds(run, t, v),
    ensures
        holds(run.after(depth, answer), t, w),
{
    match (run.next, answer) {
        (NextV::Info { .. }, Answer::Pkgs(info)) => lemma_after_info(run, depth, info, t, v),
        (NextV::Search { .. }, Answer::Names(more)) => {
            lemma_after_search(run, depth, more, t, v);
            v
        },
        (NextV::ProvidesInfo { .. }, Answer::Pkgs(info)) => lemma_after_provides(
            run,
            depth,
            info,
            t,
            v,
        ),
        _ => v,
    }
}

/// A run keeps what is read but for the AUR packages, and it holds throughout.
proof fn lemma_through<'a>(
    env: Env<'a>,
    depth: nat,
    t: TargetsV<'a>,
    answers: Seq<Answer>,
) -> (v: Pkgbuilds<'a>)
    requires
        alpm::reads_back(env.m.depend),
    ensures
        Run::through(env, depth, t, answers).env.m == env.m,
        holds(Run::through(env, depth, t, answers), t, v),
    decreases answers.len(),
{
    if answers.len() == 0 {
        lemma_start(env, depth, t)
    } else {
        let v = lemma_through(env, depth, t, answers.drop_last());
        lemma_after(
            Run::through(env, depth, t, answers.drop_last()),
            depth,
            answers.last(),
            t,
            v,
        )
    }
}

/// Once looking packages up has ended, nothing is left to ask for: every AUR target has been asked
/// for by name. Unless dependencies are left out, there are packages of pkgbuild repos, those of the
/// targets among them, such that whatever one of them or an AUR package that came in needs is met,
/// has been asked for by name, or is met by one of them.
pub proof fn law_lookups<'a>(env: Env<'a>, depth: nat, t: TargetsV<'a>, answers: Seq<Answer>)
    requires
        alpm::reads_back(env.m.depend),
    ensures
        Run::through(env, depth, t, answers).next is Done ==> exists|v: Pkgbuilds<'a>| #[trigger]
            looked_up(Run::through(env, depth, t, answers), t, v),
{
    let run = Run::through(env, depth, t, answers);
    let v = lemma_through(env, depth, t, answers);
    if run.next is Done {
        assert(run.asked.union(pending(run.next)) =~= run.asked);
        assert(run.found.difference(waiting(run.next)) =~= run.found);
        assert(looked_up(run, t, v));
    }
}

/// Each of the dependencies had not been dealt with before and has been after.
pub open spec fn all_new<'a>(
    env: Env<'a>,
    before: Set<Seq<char>>,
    after: Set<Seq<char>>,
    needs: Seq<Seq<char>>,
) -> bool {
    forall|i: int|
        0 <= i < needs.len() ==> !before.contains((env.m.depend)(#[trigger] needs[i]).text)
            && after.contains((env.m.depend)(needs[i]).text)
}

/// What is asked for next is what it takes to look `needs` up.
pub open spec fn looks_for<'a>(
    env: Env<'a>,
    before: Set<Seq<char>>,
    after: Set<Seq<char>>,
    next: NextV,
    needs: Seq<Seq<char>>,
) -> bool {
    next == env.lookup(needs, false) && all_new(env, before, after, needs)
}

/// New needs stay new with fewer before and more after.
proof fn lemma_new_more<'a>(
    env: Env<'a>,
    before: Set<Seq<char>>,
    mid: Set<Seq<char>>,
    after: Set<Seq<char>>,
    end: Set<Seq<char>>,
    needs: Seq<Seq<char>>,
)
    requires
        before.subset_of(mid),
        after.subset_of(end),
        all_new(env, mid, after, needs),
    ensures
        all_new(env, before, end, needs),
{
}

/// Needs that are new are so together.
proof fn lemma_new_sum<'a>(
    env: Env<'a>,
    before: Set<Seq<char>>,
    after: Set<Seq<char>>,
    a: Seq<Seq<char>>,
    b: Seq<Seq<char>>,
)
    requires
        all_new(env, before, after, a),
        all_new(env, before, after, b),
    ensures
        all_new(env, before, after, a + b),
{
    assert forall|i: int| 0 <= i < (a + b).len() implies !before.contains(
        (env.m.depend)(#[trigger] (a + b)[i]).text,
    ) && after.contains((env.m.depend)((a + b)[i]).text) by {
        if i < a.len() {
            assert((a + b)[i] == a[i]);
        } else {
            assert((a + b)[i] == b[i - a.len()]);
        }
    }
}

/// What a target from a pkgbuild repo needs from the AUR is new.
proof fn lemma_needs_new<'a>(env: Env<'a>, depth: nat, resolved: Set<Seq<char>>, targ: TargV)
    requires
        env.pkgbuild_needs(depth, resolved, targ) is Some,
    ensures
        ({
            let (after, needs) = env.pkgbuild_needs(depth, resolved, targ)->0;
            resolved.subset_of(after) && all_new(env, resolved, after, needs)
        }),
    decreases depth, 1nat, 0nat,
{
    if !env.flags.has(Flags::NO_DEPS) {
        if let Some((_, s, p)) = env.pkgbuild_dep(targ.repo, (env.m.depend)(targ.pkg)) {
            let needs = env.needs(AurOrPkgbuild::Pkgbuild(s, p));
            let wanted = env.wants_aur(resolved);
            let own = needs.filter(wanted);
            let nested = aur_tree::dep_texts(
                env.m,
                needs.filter(env.wants_pkgbuild(resolved)),
            );
            let (mid, more) = env.nested_needs(depth, resolved, nested)->0;
            let texts = aur_tree::dep_texts(env.m, own);
            let after = mid.union(texts.to_set());
            lemma_nested_new(env, depth, resolved, nested);
            assert forall|i: int| 0 <= i < own.len() implies !resolved.contains(
                (env.m.depend)(#[trigger] own[i]).text,
            ) && after.contains((env.m.depend)(own[i]).text) by {
                assert(own.contains(own[i]));
                seqs::lemma_filter_contains(needs, wanted, own[i]);
                assert(texts[i] == (env.m.depend)(own[i]).text);
                assert(texts.contains(texts[i]));
            }
            lemma_new_more(env, resolved, resolved, mid, after, more);
            lemma_new_sum(env, resolved, after, own, more);
        }
    }
}

/// The same of dependencies on packages of pkgbuild repos.
proof fn lemma_nested_new<'a>(
    env: Env<'a>,
    depth: nat,
    resolved: Set<Seq<char>>,
    deps: Seq<Seq<char>>,
)
    requires
        env.nested_needs(depth, resolved, deps) is Some,
    ensures
        ({
            let (after, needs) = env.nested_needs(depth, resolved, deps)->0;
            resolved.subset_of(after) && all_new(env, resolved, after, needs)
        }),
    decreases depth, 0nat, deps.len(),
{
    if deps.len() > 0 {
        let d = (depth - 1) as nat;
        let targ = TargV { repo: None, pkg: deps[0] };
        let (mid, head) = env.pkgbuild_needs(d, resolved, targ)->0;
        let (after, tail) = env.nested_needs(depth, mid, deps.drop_first())->0;
        lemma_needs_new(env, d, resolved, targ);
        lemma_nested_new(env, depth, mid, deps.drop_first());
        lemma_new_more(env, resolved, resolved, mid, after, head);
        lemma_new_more(env, resolved, mid, after, after, tail);
        lemma_new_sum(env, resolved, after, head, tail);
    }
}

/// The same of targets from pkgbuild repos.
proof fn lemma_targets_new<'a>(
    env: Env<'a>,
    depth: nat,
    resolved: Set<Seq<char>>,
    targs: Seq<TargV>,
)
    requires
        env.targets_needs(depth, resolved, targs) is Some,
    ensures
        ({
            let (after, needs) = env.targets_needs(depth, resolved, targs)->0;
            resolved.subset_of(after) && all_new(env, resolved, after, needs)
        }),
    decreases targs.len(),
{
    if targs.len() > 0 {
        let (mid, head) = env.pkgbuild_needs(depth, resolved, targs[0])->0;
        let (after, tail) = env.targets_needs(depth, mid, targs.drop_first())->0;
        lemma_needs_new(env, depth, resolved, targs[0]);
        lemma_targets_new(env, depth, mid, targs.drop_first());
        lemma_new_more(env, resolved, resolved, mid, after, head);
        lemma_new_more(env, resolved, mid, after, after, tail);
        lemma_new_sum(env, resolved, after, head, tail);
    }
}

/// Following packages looks nothing up again: what is asked for next is for dependencies that had not
/// been dealt with, all of which have been from then on. What had been dealt with stays so.
pub proof fn law_not_again<'a>(
    env: Env<'a>,
    depth: nat,
    resolved: Set<Seq<char>>,
    found: Seq<Arc<AurPkg>>,
)
    requires
        !(env.follow(depth, resolved, found).1 is TooDeep),
    ensures
        resolved.subset_of(env.follow(depth, resolved, found).0),
        exists|needs: Seq<Seq<char>>| #[trigger]
            looks_for(
                env,
                resolved,
                env.follow(depth, resolved, found).0,
                env.follow(depth, resolved, found).1,
                needs,
            ),
{
    let (after, next) = env.follow(depth, resolved, found);
    let none = Seq::<Seq<char>>::empty();
    if env.flags.has(Flags::NO_DEPS) {
        assert(looks_for(env, resolved, after, next, none));
    } else {
        let all = seqs::flat(found, env.aur_needs());
        let (mid, new) = env.fresh(resolved, all);
        fetch::law_looked_up_once(env, resolved, all);
        if new.len() == 0 {
            assert(looks_for(env, resolved, after, next, none));
        } else {
            let keep = env.not_in_pkgbuilds();
            let own = new.filter(keep);
            let targs = fetch::any_repo(new.filter(env.in_pkgbuilds()));
            let needs = (env.targets_needs(depth, mid, targs)->0).1;
            lemma_targets_new(env, depth, mid, targs);
            assert forall|i: int| 0 <= i < own.len() implies !resolved.contains(
                (env.m.depend)(#[trigger] own[i]).text,
            ) && mid.contains((env.m.depend)(own[i]).text) by {
                assert(own.contains(own[i]));
                seqs::lemma_filter_contains(new, keep, own[i]);
                let k = choose|k: int| 0 <= k < new.len() && new[k] == own[i];
            }
            lemma_new_more(env, resolved, resolved, mid, after, own);
            lemma_new_more(env, resolved, mid, after, after, needs);
            lemma_new_sum(env, resolved, after, needs, own);
            assert(looks_for(env, resolved, after, next, needs + own));
        }
    }
}

/// Throughout a run what has been dealt with stays so.
pub proof fn law_run_grows<'a>(run: Run<'a>, depth: nat, answer: Answer)
    ensures
        !(run.after(depth, answer).next is TooDeep) ==> run.resolved.subset_of(
            run.after(depth, answer).resolved,
        ),
{
    let end = run.after(depth, answer);
    if !(end.next is TooDeep) {
        match (run.next, answer) {
            (NextV::Info { pkgs, .. }, Answer::Pkgs(info)) => {
                let missing = aur_tree::dep_texts(end.env.m, pkgs.filter(end.env.unmet(info)));
                if !((end.env.flags.has(Flags::PROVIDES) || end.env.flags.has(
                    Flags::MISSING_PROVIDES,
                )) && missing.len() > 0) {
                    law_not_again(end.env, depth, run.resolved, info);
                }
            },
            (NextV::ProvidesInfo { pkgs, found, .. }, Answer::Pkgs(info)) => {
                let kept = info.filter(end.env.provides(pkgs));
                law_not_again(end.env, depth, run.resolved, found + kept);
            },
            _ => {},
        }
    }
}

/// None of the dependencies is met, and no package of a pkgbuild repo meets one.
pub open spec fn none_met<'a>(env: Env<'a>, needs: Seq<Seq<char>>) -> bool {
    forall|i: int|
        0 <= i < needs.len() ==> !met(env, #[trigger] needs[i]) && env.pkgbuild_dep(
            None,
            (env.m.depend)(needs[i]),
        ) is None
}

/// None of the dependencies is met.
proof fn lemma_none_sum<'a>(env: Env<'a>, a: Seq<Seq<char>>, b: Seq<Seq<char>>)
    requires
        none_met(env, a),
        none_met(env, b),
    ensures
        none_met(env, a + b),
{
    assert forall|i: int| 0 <= i < (a + b).len() implies !met(env, #[trigger] (a + b)[i])
        && env.pkgbuild_dep(None, (env.m.depend)((a + b)[i])) is None by {
        if i < a.len() {
            assert((a + b)[i] == a[i]);
        } else {
            assert((a + b)[i] == b[i - a.len()]);
        }
    }
}

/// What a target from a pkgbuild repo needs from the AUR is not met otherwise.
pub proof fn law_needs_unmet<'a>(env: Env<'a>, depth: nat, resolved: Set<Seq<char>>, targ: TargV)
    requires
        env.pkgbuild_needs(depth, resolved, targ) is Some,
    ensures
        none_met(env, (env.pkgbuild_needs(depth, resolved, targ)->0).1),
    decreases depth, 1nat, 0nat,
{
    if !env.flags.has(Flags::NO_DEPS) {
        if let Some((_, s, p)) = env.pkgbuild_dep(targ.repo, (env.m.depend)(targ.pkg)) {
            let needs = env.needs(AurOrPkgbuild::Pkgbuild(s, p));
            let wanted = env.wants_aur(resolved);
            let own = needs.filter(wanted);
            let nested = aur_tree::dep_texts(env.m, needs.filter(env.wants_pkgbuild(resolved)));
            lemma_nested_unmet(env, depth, resolved, nested);
            assert forall|i: int| 0 <= i < own.len() implies !met(env, #[trigger] own[i])
                && env.pkgbuild_dep(None, (env.m.depend)(own[i])) is None by {
                assert(own.contains(own[i]));
                seqs::lemma_filter_contains(needs, wanted, own[i]);
            }
            lemma_none_sum(env, own, (env.nested_needs(depth, resolved, nested)->0).1);
        }
    }
}

/// The same of dependencies on packages of pkgbuild repos.
proof fn lemma_nested_unmet<'a>(
    env: Env<'a>,
    depth: nat,
    resolved: Set<Seq<char>>,
    deps: Seq<Seq<char>>,
)
    requires
        env.nested_needs(depth, resolved, deps) is Some,
    ensures
        none_met(env, (env.nested_needs(depth, resolved, deps)->0).1),
    decreases depth, 0nat, deps.len(),
{
    if deps.len() > 0 {
        let d = (depth - 1) as nat;
        let targ = TargV { repo: None, pkg: deps[0] };
        let (mid, head) = env.pkgbuild_needs(d, resolved, targ)->0;
        law_needs_unmet(env, d, resolved, targ);
        lemma_nested_unmet(env, depth, mid, deps.drop_first());
        lemma_none_sum(env, head, (env.nested_needs(depth, mid, deps.drop_first())->0).1);
    }
}

/// The same of targets from pkgbuild repos.
proof fn lemma_targets_unmet<'a>(
    env: Env<'a>,
    depth: nat,
    resolved: Set<Seq<char>>,
    targs: Seq<TargV>,
)
    requires
        env.targets_needs(depth, resolved, targs) is Some,
    ensures
        none_met(env, (env.targets_needs(depth, resolved, targs)->0).1),
    decreases targs.len(),
{
    if targs.len() > 0 {
        let (mid, head) = env.pkgbuild_needs(depth, resolved, targs[0])->0;
        law_needs_unmet(env, depth, resolved, targs[0]);
        lemma_targets_unmet(env, depth, mid, targs.drop_first());
        lemma_none_sum(env, head, (env.targets_needs(depth, mid, targs.drop_first())->0).1);
    }
}

/// What is new among dependencies is not met and is one of them.
proof fn lemma_fresh_unmet<'a>(env: Env<'a>, resolved: Set<Seq<char>>, needs: Seq<Seq<char>>)
    ensures
        forall|i: int|
            0 <= i < env.fresh(resolved, needs).1.len() ==> !met(
                env,
                #[trigger] env.fresh(resolved, needs).1[i],
            ) && needs.contains(env.fresh(resolved, needs).1[i]),
    decreases needs.len(),
{
    if needs.len() > 0 {
        let rest = needs.drop_first();
        let t = (env.m.depend)(needs[0]).text;
        let new = env.fresh(resolved, needs).1;
        let wanted = env.wants(resolved, needs[0]);
        let r = if wanted {
            resolved.insert(t)
        } else {
            resolved
        };
        let tail = env.fresh(r, rest).1;
        lemma_fresh_unmet(env, r, rest);
        assert forall|i: int| 0 <= i < new.len() implies !met(env, #[trigger] new[i])
            && needs.contains(new[i]) by {
            if wanted && i == 0 {
                assert(new[0] == needs[0]);
            } else {
                let k = if wanted {
                    i - 1
                } else {
                    i
                };
                assert(new[i] == tail[k]);
                let j = choose|j: int| 0 <= j < rest.len() && rest[j] == tail[k];
                assert(needs[j + 1] == new[i]);
            }
        }
    }
}

/// The AUR is asked for nothing that can be had without it: where packages are followed, what is
/// looked up next is for dependencies that no sync package, nothing that is installed and no package
/// of a pkgbuild repo meets.
pub proof fn law_only_unmet<'a>(
    env: Env<'a>,
    depth: nat,
    resolved: Set<Seq<char>>,
    found: Seq<Arc<AurPkg>>,
)
    requires
        !(env.follow(depth, resolved, found).1 is TooDeep),
    ensures
        exists|needs: Seq<Seq<char>>|
            env.follow(depth, resolved, found).1 == env.lookup(needs, false) && #[trigger] none_met(
                env,
                needs,
            ),
{
    let next = env.follow(depth, resolved, found).1;
    let none = Seq::<Seq<char>>::empty();
    assert(none_met(env, none));
    if !env.flags.has(Flags::NO_DEPS) {
        let all = seqs::flat(found, env.aur_needs());
        let (mid, new) = env.fresh(resolved, all);
        lemma_fresh_unmet(env, resolved, all);
        if new.len() > 0 {
            let keep = env.not_in_pkgbuilds();
            let own = new.filter(keep);
            let targs = fetch::any_repo(new.filter(env.in_pkgbuilds()));
            let needs = (env.targets_needs(depth, mid, targs)->0).1;
            lemma_targets_unmet(env, depth, mid, targs);
            assert forall|i: int| 0 <= i < own.len() implies !met(env, #[trigger] own[i])
                && env.pkgbuild_dep(None, (env.m.depend)(own[i])) is None by {
                assert(own.contains(own[i]));
                seqs::lemma_filter_contains(new, keep, own[i]);
                let k = choose|k: int| 0 <= k < new.len() && new[k] == own[i];
                assert(!met(env, env.fresh(resolved, all).1[k]));
            }
            lemma_none_sum(env, needs, own);
            assert(next == env.lookup(needs + own, false));
        } else {
            assert(next == env.lookup(none, false));
        }
    } else {
        assert(next == env.lookup(none, false));
    }
}

/// How packages are looked up. Where there is nothing to look up nothing is asked for. Where providers
/// are enabled for what is looked up they are searched for at once, else the info of the packages of
/// the names is asked for. Either way the names are those of all that is looked up. Only names of
/// packages that are not installed are searched for.
pub proof fn law_lookup<'a>(env: Env<'a>, pkgs: Seq<Seq<char>>, target: bool, name: Seq<char>)
    ensures
        ({
            let next = env.lookup(pkgs, target);
            let provides = env.flags.has(Flags::PROVIDES) || (target && env.flags.has(
                Flags::TARGET_PROVIDES,
            )) || (!target && env.flags.has(Flags::NON_TARGET_PROVIDES));
            let asked = exists|i: int|
                0 <= i < pkgs.len() && found::is_bare(#[trigger] pkgs[i], name);
            &&& next is Done <==> pkgs.len() == 0
            &&& pkgs.len() > 0 && !provides ==> next is Info && next->Info_pkgs == pkgs && (
            next->Info_queries.contains(name) <==> asked)
            &&& pkgs.len() > 0 && provides ==> next is Search && next->Search_found.len() == 0 && (
            next->Search_pkgs.contains(name) <==> asked) && (next->Search_queries.contains(name)
                ==> asked && !found::is_installed(env, name)) && (forall|i: int|
                0 <= i < pkgs.len() && found::is_bare(#[trigger] pkgs[i], name)
                    && found::is_bare(name, name) && !found::is_installed(env, name)
                    ==> next->Search_queries.contains(name))
        }),
{
    let names = fetch::no_vers(pkgs);
    let queries = text::dedup(text::sorted(names));
    lemma_queries(names);
    assert(names.contains(name) <==> exists|i: int|
        0 <= i < pkgs.len() && found::is_bare(#[trigger] pkgs[i], name)) by {
        if names.contains(name) {
            let i = choose|i: int| 0 <= i < names.len() && names[i] == name;
            found::law_no_ver(pkgs[i], name);
        }
        if exists|i: int| 0 <= i < pkgs.len() && found::is_bare(#[trigger] pkgs[i], name) {
            let i = choose|i: int| 0 <= i < pkgs.len() && found::is_bare(#[trigger] pkgs[i], name);
            found::law_no_ver(pkgs[i], name);
            assert(names[i] == name);
        }
    }
    let again = fetch::no_vers(queries);
    let f = env.not_installed();
    seqs::lemma_filter_contains(again, f, name);
    found::law_local_pkg(env, name);
    if let Some(p) = env.local_pkg(name) {
        let local = env.m.system.localdb@;
        let i = choose|i: int| 0 <= i < local.len() && (#[trigger] local[i]) == p && p.name@ == name;
        assert(local[i].name@ == name);
    }
    if again.contains(name) {
        let k = choose|k: int| 0 <= k < again.len() && again[k] == name;
        assert(queries.contains(queries[k]));
        let j = choose|j: int| 0 <= j < names.len() && names[j] == queries[k];
        lemma_bare_twice(pkgs[j]);
        assert(names[j] == text::no_ver(pkgs[j]));
        assert(name == names[j]);
    }
    if queries.contains(name) && found::is_bare(name, name) {
        found::law_no_ver(name, name);
        let k = choose|k: int| 0 <= k < queries.len() && queries[k] == name;
        assert(again[k] == name);
    }
}

/// Taking the version constraint away twice is taking it away once.
proof fn lemma_bare_twice(s: Seq<char>)
    ensures
        text::no_ver(text::no_ver(s)) == text::no_ver(s),
{
    let n = text::no_ver(s);
    found::law_no_ver(s, n);
    assert(n.is_prefix_of(n)) by {
        assert(n =~= n.subrange(0, n.len() as int));
    }
    found::law_no_ver(n, n);
}

/// Once the info of packages has come in, what none of them meets is searched for where that is
/// enabled, and only then. Otherwise the packages are followed.
pub proof fn law_after_info<'a>(
    env: Env<'a>,
    depth: nat,
    resolved: Set<Seq<char>>,
    pkgs: Seq<Seq<char>>,
    info: Seq<Arc<AurPkg>>,
)
    ensures
        ({
            let r = env.after_info(depth, resolved, pkgs, info);
            let enabled = env.flags.has(Flags::PROVIDES) || env.flags.has(Flags::MISSING_PROVIDES);
            let lacking = exists|i: int|
                0 <= i < pkgs.len() && none_meets(env, info, (env.m.depend)(#[trigger] pkgs[i]));
            &&& enabled && lacking ==> r.0 == resolved && r.1 is Search && r.1->Search_found == info
                && forall|i: int|
                0 <= i < pkgs.len() && none_meets(env, info, (env.m.depend)(#[trigger] pkgs[i]))
                    ==> r.1->Search_pkgs.contains((env.m.depend)(pkgs[i]).text)
            &&& !enabled || !lacking ==> r == env.follow(depth, resolved, info)
        }),
{
    let f = env.unmet(info);
    let some = pkgs.filter(f);
    let missing = aur_tree::dep_texts(env.m, some);
    assert forall|i: int| 0 <= i < pkgs.len() implies f(#[trigger] pkgs[i]) == none_meets(
        env,
        info,
        (env.m.depend)(pkgs[i]),
    ) by {
        let dep = (env.m.depend)(pkgs[i]);
        let g = env.aur_sat(dep);
        if seqs::any(info, g) {
            let k = choose|k: int| 0 <= k < info.len() && g(#[trigger] info[k]);
            assert(found::aur_meets(env, info[k], dep));
        }
        if !none_meets(env, info, dep) {
            let k = choose|k: int| 0 <= k < info.len() && found::aur_meets(
                env,
                #[trigger] info[k],
                dep,
            );
            assert(g(info[k]));
        }
    }
    assert forall|i: int| 0 <= i < pkgs.len() && f(#[trigger] pkgs[i]) implies missing.contains(
        (env.m.depend)(pkgs[i]).text,
    ) by {
        assert(pkgs.contains(pkgs[i]));
        seqs::lemma_filter_contains(pkgs, f, pkgs[i]);
        let k = choose|k: int| 0 <= k < some.len() && some[k] == pkgs[i];
        assert(missing[k] == (env.m.depend)(pkgs[i]).text);
    }
    if some.len() > 0 {
        assert(some.contains(some[0]));
        seqs::lemma_filter_contains(pkgs, f, some[0]);
        let i = choose|i: int| 0 <= i < pkgs.len() && pkgs[i] == some[0];
        assert(none_meets(env, info, (env.m.depend)(pkgs[i])));
    }
    assert(missing.len() == some.len());
}

/// None of the AUR packages meets the dependency.
pub open spec fn none_meets<'a>(env: Env<'a>, info: Seq<Arc<AurPkg>>, dep: DependV) -> bool {
    forall|k: int| 0 <= k < info.len() ==> !found::aur_meets(env, #[trigger] info[k], dep)
}

/// Of the providers that come in, those are kept that meet something that is looked up.
pub proof fn law_kept_providers<'a>(
    env: Env<'a>,
    pkgs: Seq<Seq<char>>,
    info: Seq<Arc<AurPkg>>,
    p: Arc<AurPkg>,
)
    ensures
        info.filter(env.provides(pkgs)).contains(p) <==> info.contains(p) && exists|i: int|
            0 <= i < pkgs.len() && found::aur_meets(env, p, (env.m.depend)(#[trigger] pkgs[i])),
{
    seqs::lemma_filter_contains(info, env.provides(pkgs), p);
    assert forall|i: int| 0 <= i < pkgs.len() implies env.aur_sat(
        (env.m.depend)(#[trigger] pkgs[i]),
    )(p) == found::aur_meets(env, p, (env.m.depend)(pkgs[i])) by {
    }
}

} // verus!
