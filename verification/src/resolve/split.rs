//! Telling where targets come from.
use vstd::prelude::*;
use crate::actions;
use crate::actions::{Missing, MissingV};
use crate::alpm::{Alpm, AlpmPkg, Db, PkgGroup};
use crate::cb::Group;
use crate::flags::Flags;
use crate::model::{Env, St};
use crate::resolve::Resolver;
use crate::seqs;
use crate::target;
use crate::target::{Targ, TargV};
use crate::text;

pub mod laws;

verus! {

/// Where a target is to be looked for.
#[derive(Debug, Copy, Clone, PartialEq, Eq, Structural)]
pub enum RepoSource {
    /// In the sync database it names.
    Repo,
    /// In the pkgbuild repo it names.
    Pkgbuild,
    /// In the AUR.
    Aur,
    /// Anywhere.
    Unspecified,
    /// Nowhere, as there is no repo of that name.
    Missing,
}

/// The targets by where they come from.
#[derive(Debug)]
pub struct Targets<'a> {
    /// Targets with the repo package that is to be installed for them.
    pub repo: Vec<(Targ, &'a AlpmPkg)>,
    /// Targets that are built from a pkgbuild repo.
    pub pkgbuild: Vec<Targ>,
    /// Targets that are built from the AUR.
    pub aur: Vec<String>,
}

/// The targets by where they come from, over characters.
#[verifier::ext_equal]
pub struct TargetsV<'a> {
    pub repo: Seq<(TargV, &'a AlpmPkg)>,
    pub pkgbuild: Seq<TargV>,
    pub aur: Seq<Seq<char>>,
}

/// Targets with packages over characters.
pub open spec fn repo_targs<'a>(v: Seq<(Targ, &'a AlpmPkg)>) -> Seq<(TargV, &'a AlpmPkg)> {
    v.map_values(|t: (Targ, &'a AlpmPkg)| (t.0@, t.1))
}

impl<'a> View for Targets<'a> {
    type V = TargetsV<'a>;

    open spec fn view(&self) -> TargetsV<'a> {
        TargetsV {
            repo: repo_targs(self.repo@),
            pkgbuild: target::targs(self.pkgbuild@),
            aur: text::strs(self.aur@),
        }
    }
}

/// The targets that have been told apart, and those that have no source.
#[verifier::ext_equal]
pub struct Split<'a> {
    pub targets: TargetsV<'a>,
    pub missing: Seq<MissingV>,
}

/// The database has the name.
pub open spec fn db_named(name: Seq<char>) -> spec_fn(Db) -> bool {
    |db: Db| db.name@ == name
}

/// The group has the name.
pub open spec fn group_named(name: Seq<char>) -> spec_fn(PkgGroup) -> bool {
    |g: PkgGroup| g.name@ == name
}

/// The groups of the databases with the name of the target, at most one for each database.
pub open spec fn groups_in<'a>(dbs: Seq<Db>, t: TargV) -> Seq<Group<'a>>
    decreases dbs.len(),
{
    if dbs.len() == 0 {
        Seq::empty()
    } else {
        let group = seqs::first(dbs[0].groups@, group_named(t.pkg));
        (if (t.repo is None || t.repo == Some(dbs[0].name@)) && group is Some {
            seq![Group { db: &dbs[0], group: &group->0 }]
        } else {
            Seq::empty()
        }) + groups_in(dbs.drop_first(), t)
    }
}

/// The packages of a group.
pub open spec fn members<'a>() -> spec_fn(Group<'a>) -> Seq<&'a AlpmPkg> {
    |g: Group<'a>| Seq::new(g.group.packages@.len(), |i: int| &g.group.packages@[i])
}

/// Packages that are to be installed for the target.
pub open spec fn for_target<'a>(t: TargV, pkgs: Seq<&'a AlpmPkg>) -> Seq<(TargV, &'a AlpmPkg)> {
    pkgs.map_values(|p: &'a AlpmPkg| (t, p))
}

impl<'a> Env<'a> {
    /// Where the target is to be looked for. The name that stands for the AUR goes before the name
    /// of a repo.
    pub open spec fn source(self, t: TargV) -> RepoSource {
        match t.repo {
            None => RepoSource::Unspecified,
            Some(repo) => if self.ns == Some(repo) {
                RepoSource::Aur
            } else if seqs::any(self.m.system.syncdbs@, db_named(repo)) {
                RepoSource::Repo
            } else if exists|i: int|
                0 <= i < self.repos.len() && #[trigger] self.repos[i].name@ == repo {
                RepoSource::Pkgbuild
            } else {
                RepoSource::Missing
            },
        }
    }

    /// The groups of the sync databases with the name of the target.
    pub open spec fn groups(self, t: TargV) -> Seq<Group<'a>> {
        groups_in(self.m.system.syncdbs@, t)
    }

    /// The packages that are picked from the groups: all of them where there is no group callback.
    pub open spec fn picked(self, groups: Seq<Group<'a>>) -> Seq<&'a AlpmPkg> {
        match self.group {
            Some(f) => f(groups),
            None => seqs::flat(groups, members()),
        }
    }

    /// What to install for the target is picked from groups: it is a target that may come from a
    /// sync database, no package there meets it, and there are groups with its name.
    pub open spec fn asks_group(self, t: TargV, is_target: bool) -> bool {
        &&& is_target
        &&& self.source(t) is Repo || self.source(t) is Unspecified
        &&& self.flags.has(Flags::REPO)
        &&& self.target_sat(t) is None
        &&& self.groups(t).len() > 0
    }

    /// Tells where one more target comes from: a sync package or group, a pkgbuild repo, the AUR.
    /// `picks` is what is picked from the groups with the name of the target.
    ///
    /// A source counts where the target leaves it open or names it. For a target, as opposed to a
    /// dependency, it also has to be enabled, and only a target can be a group.
    pub open spec fn split_with(
        self,
        s: Split<'a>,
        t: TargV,
        picks: Seq<&'a AlpmPkg>,
        is_target: bool,
    ) -> Split<'a> {
        let source = self.source(t);
        let open = source is Unspecified;
        let repo = (source is Repo || open) && (self.flags.has(Flags::REPO) || !is_target);
        let pkgbuild = (source is Pkgbuild || open) && (self.flags.has(Flags::PKGBUILDS)
            || !is_target);
        let aur = (source is Aur || open) && (self.flags.has(Flags::AUR) || !is_target);
        let groups = self.groups(t);
        if !is_target && self.assumed((self.m.depend)(t.text())) {
            s
        } else if repo && self.target_sat(t) is Some {
            s.with_repo(t, seq![&self.target_sat(t)->0])
        } else if repo && is_target && groups.len() > 0 {
            s.with_repo(t, picks)
        } else if pkgbuild && self.pkgbuild_dep(t.repo, (self.m.depend)(t.pkg)) is Some {
            Split {
                targets: TargetsV { pkgbuild: s.targets.pkgbuild.push(t), ..s.targets },
                ..s
            }
        } else if aur {
            Split { targets: TargetsV { aur: s.targets.aur.push(t.pkg), ..s.targets }, ..s }
        } else {
            Split {
                missing: s.missing.push(MissingV { dep: t.text(), stack: Seq::empty() }),
                ..s
            }
        }
    }

    /// Tells where one more target comes from.
    pub open spec fn split_one(self, s: Split<'a>, t: TargV, is_target: bool) -> Split<'a> {
        self.split_with(s, t, self.picked(self.groups(t)), is_target)
    }

    /// Tells where each target comes from, given what is picked for each of them from the groups
    /// with its name.
    pub open spec fn split_by(
        self,
        s: Split<'a>,
        ts: Seq<TargV>,
        picks: Seq<Seq<&'a AlpmPkg>>,
        is_target: bool,
    ) -> Split<'a>
        decreases ts.len(),
    {
        if ts.len() == 0 {
            s
        } else {
            self.split_with(
                self.split_by(s, ts.drop_last(), picks, is_target),
                ts.last(),
                picks[ts.len() - 1],
                is_target,
            )
        }
    }

    /// Tells where each target comes from.
    pub open spec fn split(self, s: Split<'a>, ts: Seq<TargV>, is_target: bool) -> Split<'a>
        decreases ts.len(),
    {
        if ts.len() == 0 {
            s
        } else {
            self.split(self.split_one(s, ts[0], is_target), ts.drop_first(), is_target)
        }
    }
}

impl<'a> Split<'a> {
    /// No target so far, but what is missing.
    pub open spec fn start(missing: Seq<MissingV>) -> Split<'a> {
        Split {
            targets: TargetsV { repo: Seq::empty(), pkgbuild: Seq::empty(), aur: Seq::empty() },
            missing,
        }
    }

    /// The packages are to be installed for the target.
    pub open spec fn with_repo(self, t: TargV, pkgs: Seq<&'a AlpmPkg>) -> Split<'a> {
        Split {
            targets: TargetsV { repo: self.targets.repo + for_target(t, pkgs), ..self.targets },
            ..self
        }
    }
}

impl<
    'a,
    A: Alpm,
    P: Fn(&str, &[String]) -> usize,
    G: Fn(&[Group<'a>]) -> Vec<&'a AlpmPkg>,
    D: Fn(&str) -> bool,
> Resolver<'a, A, P, G, D> {
    /// Parses the repo part of the target and figures out where the target is.
    pub fn where_is_target(&self, targ: &Targ) -> (r: RepoSource)
        requires
            self.able(),
        ensures
            r == self.env().source(targ@),
    {
        let repo = match &targ.repo {
            Some(repo) => repo,
            None => {
                return RepoSource::Unspecified;
            },
        };
        if let Some(name) = &self.aur_namespace {
            if *name == *repo {
                return RepoSource::Aur;
            }
        }
        let dbs = &self.alpm.system().syncdbs;
        let mut i: usize = 0;
        while i < dbs.len()
            invariant
                i <= dbs.len(),
                *dbs == self.env().m.system.syncdbs,
                targ@.repo == Some(repo@),
                self.env().ns != Some(repo@),
                forall|j: int| 0 <= j < i ==> !db_named(repo@)(#[trigger] dbs@[j]),
            decreases dbs.len() - i,
        {
            if dbs[i].name == *repo {
                assert(db_named(repo@)(dbs@[i as int]));
                return RepoSource::Repo;
            }
            i = i + 1;
        }
        let mut i: usize = 0;
        while i < self.repos.len()
            invariant
                i <= self.repos.len(),
                targ@.repo == Some(repo@),
                self.env().ns != Some(repo@),
                !seqs::any(self.env().m.system.syncdbs@, db_named(repo@)),
                forall|j: int| 0 <= j < i ==> #[trigger] self.env().repos[j].name@ != repo@,
            decreases self.repos.len() - i,
        {
            if self.repos[i].name == *repo {
                assert(self.env().repos[i as int].name@ == repo@);
                return RepoSource::Pkgbuild;
            }
            i = i + 1;
        }
        RepoSource::Missing
    }

    /// The groups of the sync databases with the name of the target.
    fn find_groups(&self, targ: &Targ) -> (r: Vec<Group<'a>>)
        requires
            self.able(),
        ensures
            r@ == self.env().groups(targ@),
    {
        let dbs = &self.alpm.system().syncdbs;
        let mut r: Vec<Group<'a>> = Vec::new();
        let mut i: usize = 0;
        let ghost p = group_named(targ.pkg@);
        proof {
            assert(dbs@.skip(0) =~= dbs@);
            assert(r@ + groups_in(dbs@, targ@) =~= groups_in(dbs@, targ@));
        }
        while i < dbs.len()
            invariant
                i <= dbs.len(),
                *dbs == self.env().m.system.syncdbs,
                p == group_named(targ.pkg@),
                r@ + groups_in(dbs@.skip(i as int), targ@) == self.env().groups(targ@),
            decreases dbs.len() - i,
        {
            let ghost before = r@;
            let db = &dbs[i];
            proof {
                assert(dbs@.skip(i as int)[0] == dbs@[i as int]);
                assert(dbs@.skip(i as int).drop_first() =~= dbs@.skip(i + 1));
            }
            let wanted = match &targ.repo {
                Some(repo) => *repo == db.name,
                None => true,
            };
            if wanted {
                let mut k: usize = 0;
                while k < db.groups.len() && db.groups[k].name != targ.pkg
                    invariant
                        k <= db.groups.len(),
                        p == group_named(targ.pkg@),
                        forall|j: int| 0 <= j < k ==> !p(#[trigger] db.groups@[j]),
                    decreases db.groups.len() - k,
                {
                    k = k + 1;
                }
                proof {
                    assert(k < db.groups@.len() ==> p(db.groups@[k as int]));
                    seqs::lemma_first_at(db.groups@, p, k as int);
                }
                if k < db.groups.len() {
                    r.push(Group { db, group: &db.groups[k] });
                }
            }
            proof {
                assert(before + groups_in(dbs@.skip(i as int), targ@) =~= r@ + groups_in(
                    dbs@.skip(i + 1),
                    targ@,
                ));
            }
            i = i + 1;
        }
        proof {
            assert(r@ + groups_in(dbs@.skip(i as int), targ@) =~= r@);
        }
        r
    }

    /// The packages that are picked from the groups.
    fn pick(&self, groups: &Vec<Group<'a>>) -> (r: Vec<&'a AlpmPkg>)
        requires
            self.able(),
        ensures
            self.may_pick(groups@, r@),
            self.wf() ==> r@ == self.env().picked(groups@),
    {
        if let Some(f) = self.group_callback.get() {
            return f(groups.as_slice());
        }
        let mut r: Vec<&'a AlpmPkg> = Vec::new();
        let mut i: usize = 0;
        let ghost f = members::<'a>();
        proof {
            assert(groups@.skip(0) =~= groups@);
            assert(r@ + seqs::flat(groups@, f) =~= seqs::flat(groups@, f));
        }
        while i < groups.len()
            invariant
                i <= groups.len(),
                f == members::<'a>(),
                r@ + seqs::flat(groups@.skip(i as int), f) == seqs::flat(groups@, f),
            decreases groups.len() - i,
        {
            let ghost before = r@;
            let pkgs: &'a Vec<AlpmPkg> = &groups[i].group.packages;
            let mut k: usize = 0;
            while k < pkgs.len()
                invariant
                    k <= pkgs.len(),
                    i < groups.len(),
                    *pkgs == groups@[i as int].group.packages,
                    f == members::<'a>(),
                    r@ == before + f(groups@[i as int]).take(k as int),
                decreases pkgs.len() - k,
            {
                r.push(&pkgs[k]);
                proof {
                    assert(f(groups@[i as int]).take(k + 1) =~= f(groups@[i as int]).take(
                        k as int,
                    ).push(&pkgs@[k as int]));
                }
                k = k + 1;
            }
            proof {
                assert(f(groups@[i as int]).take(k as int) =~= f(groups@[i as int]));
                assert(groups@.skip(i as int)[0] == groups@[i as int]);
                assert(groups@.skip(i as int).drop_first() =~= groups@.skip(i + 1));
                assert(before + seqs::flat(groups@.skip(i as int), f) =~= r@ + seqs::flat(
                    groups@.skip(i + 1),
                    f,
                ));
            }
            i = i + 1;
        }
        proof {
            assert(r@ + seqs::flat(groups@.skip(i as int), f) =~= r@);
        }
        r
    }

    /// Tells where one more target comes from. Gives what was picked from groups for it.
    fn split_target(&mut self, targets: &mut Targets<'a>, targ: &Targ, is_target: bool) -> (picks:
        Ghost<Seq<&'a AlpmPkg>>)
        requires
            old(self).able(),
        ensures
            final(self).able(),
            old(self).wf() ==> final(self).wf(),
            forall|g: Seq<Group<'a>>, p: Seq<&'a AlpmPkg>| #[trigger]
                final(self).may_pick(g, p) == old(self).may_pick(g, p),
            final(self).env() == old(self).env(),
            final(self).st() == (St { missing: final(self).st().missing, ..old(self).st() }),
            old(self).env().asks_group(targ@, is_target) ==> old(self).may_pick(
                old(self).env().groups(targ@),
                picks@,
            ),
            old(self).wf() && old(self).env().asks_group(targ@, is_target) ==> picks@ == old(
                self,
            ).env().picked(old(self).env().groups(targ@)),
            (Split { targets: final(targets)@, missing: final(self).st().missing })
                == old(self).env().split_with(
                (Split { targets: old(targets)@, missing: old(self).st().missing }),
                targ@,
                picks@,
                is_target,
            ),
    {
        let ghost env = self.env();
        let ghost s = Split { targets: targets@, missing: self.st().missing };
        let ghost o = targets@;
        let whole = targ.text();
        let dep = self.alpm.depend(whole.as_str());
        if !is_target && self.assume_installed(&dep) {
            return Ghost(Seq::empty());
        }
        let source = self.where_is_target(targ);
        let open = source == RepoSource::Unspecified;
        if (source == RepoSource::Repo || open) && (self.flags.contains(Flags::REPO) || !is_target) {
            if let Some(pkg) = self.find_repo_target_satisfier(targ) {
                targets.repo.push((targ.copy(), pkg));
                proof {
                    assert(targets@.repo =~= o.repo + for_target(targ@, seq![pkg]));
                }
                return Ghost(Seq::empty());
            }
            if is_target {
                let groups = self.find_groups(targ);
                if groups.len() > 0 {
                    let pkgs = self.pick(&groups);
                    let ghost all = for_target(targ@, pkgs@);
                    let mut i: usize = 0;
                    proof {
                        assert(o.repo + all.take(0) =~= o.repo);
                    }
                    while i < pkgs.len()
                        invariant
                            i <= pkgs.len(),
                            all == for_target(targ@, pkgs@),
                            targets@ == (TargetsV { repo: o.repo + all.take(i as int), ..o }),
                        decreases pkgs.len() - i,
                    {
                        let ghost before = targets.repo@;
                        targets.repo.push((targ.copy(), pkgs[i]));
                        proof {
                            assert(all.take(i + 1) =~= all.take(i as int).push(
                                (targ@, pkgs@[i as int]),
                            ));
                            assert(targets@.repo =~= repo_targs(before).push(
                                (targ@, pkgs@[i as int]),
                            ));
                            assert(targets@.repo =~= o.repo + all.take(i + 1));
                        }
                        i = i + 1;
                    }
                    proof {
                        assert(all.take(i as int) =~= all);
                    }
                    return Ghost(pkgs@);
                }
            }
        }
        if (source == RepoSource::Pkgbuild || open) && (self.flags.contains(Flags::PKGBUILDS)
            || !is_target) {
            let dep = self.alpm.depend(targ.pkg.as_str());
            let repo = targ.repo.as_ref();
            if self.find_pkgbuild_repo_dep(repo, &dep).is_some() {
                targets.pkgbuild.push(targ.copy());
                proof {
                    assert(targets@.pkgbuild =~= o.pkgbuild.push(targ@));
                }
                return Ghost(Seq::empty());
            }
        }
        if (source == RepoSource::Aur || open) && (self.flags.contains(Flags::AUR) || !is_target) {
            targets.aur.push(targ.pkg.clone());
            proof {
                assert(targets@.aur =~= o.aur.push(targ.pkg@));
            }
            return Ghost(Seq::empty());
        }
        let ghost before = self.actions.missing@;
        let missing = Missing { dep: whole, stack: Vec::new() };
        proof {
            assert(missing@.stack =~= Seq::empty());
        }
        self.actions.missing.push(missing);
        proof {
            assert(self.st().missing =~= actions::missings(before).push(missing@));
        }
        Ghost(Seq::empty())
    }

    /// Tells where each target comes from. A target that comes from nowhere is missing.
    ///
    /// Whatever the group callback answers, what it picks is installed for the target it was asked
    /// for, and nothing else depends on it.
    pub fn split_targets(&mut self, deps: &Vec<Targ>, make_deps: &Vec<Targ>, is_target: bool) -> (r:
        Targets<'a>)
        requires
            old(self).able(),
        ensures
            final(self).able(),
            old(self).wf() ==> final(self).wf(),
            final(self).env() == old(self).env(),
            final(self).st() == (St { missing: final(self).st().missing, ..old(self).st() }),
            old(self).wf() ==> (Split { targets: r@, missing: final(self).st().missing }) == old(
                self,
            ).env().split(
                Split::start(old(self).st().missing),
                target::targs(deps@) + target::targs(make_deps@),
                is_target,
            ),
            old(self).may_split(
                target::targs(deps@) + target::targs(make_deps@),
                is_target,
                (Split { targets: r@, missing: final(self).st().missing }),
            ),
    {
        let ghost env = self.env();
        let ghost st = self.st();
        let ghost wf = self.wf();
        let ghost s0 = Split::start(st.missing);
        let ghost all = target::targs(deps@) + target::targs(make_deps@);
        let ghost mut picks: Seq<Seq<&'a AlpmPkg>> = Seq::empty();
        let mut targets: Targets<'a> = Targets {
            repo: Vec::new(),
            pkgbuild: Vec::new(),
            aur: Vec::new(),
        };
        let mut i: usize = 0;
        proof {
            assert(all.skip(0) =~= all);
            assert(targets@ =~= s0.targets);
        }
        while i < deps.len()
            invariant
                self.able(),
                wf == old(self).wf(),
                wf ==> self.wf(),
                forall|g: Seq<Group<'a>>, p: Seq<&'a AlpmPkg>| #[trigger]
                    self.may_pick(g, p) == old(self).may_pick(g, p),
                self.env() == env,
                self.st() == (St { missing: self.st().missing, ..st }),
                i <= deps.len(),
                all == target::targs(deps@) + target::targs(make_deps@),
                old(self).may_split_by(
                    env,
                    s0,
                    all.take(i as int),
                    picks,
                    is_target,
                    Split { targets: targets@, missing: self.st().missing },
                ),
                wf ==> env.split(
                    (Split { targets: targets@, missing: self.st().missing }),
                    all.skip(i as int),
                    is_target,
                ) == env.split(s0, all, is_target),
            decreases deps.len() - i,
        {
            let ghost cur = Split { targets: targets@, missing: self.st().missing };
            proof {
                assert(all.skip(i as int)[0] == deps@[i as int]@);
                assert(all.skip(i as int).drop_first() =~= all.skip(i + 1));
                assert(all.take(i + 1) =~= all.take(i as int).push(deps@[i as int]@));
            }
            let Ghost(p) = self.split_target(&mut targets, &deps[i], is_target);
            proof {
                old(self).lemma_may_split(
                    env,
                    s0,
                    all.take(i as int),
                    picks,
                    is_target,
                    cur,
                    deps@[i as int]@,
                    p,
                );
                picks = picks.push(p);
            }
            i = i + 1;
        }
        let mut k: usize = 0;
        while k < make_deps.len()
            invariant
                self.able(),
                wf == old(self).wf(),
                wf ==> self.wf(),
                forall|g: Seq<Group<'a>>, p: Seq<&'a AlpmPkg>| #[trigger]
                    self.may_pick(g, p) == old(self).may_pick(g, p),
                self.env() == env,
                self.st() == (St { missing: self.st().missing, ..st }),
                i == deps.len(),
                k <= make_deps.len(),
                all == target::targs(deps@) + target::targs(make_deps@),
                old(self).may_split_by(
                    env,
                    s0,
                    all.take(i + k),
                    picks,
                    is_target,
                    Split { targets: targets@, missing: self.st().missing },
                ),
                wf ==> env.split(
                    (Split { targets: targets@, missing: self.st().missing }),
                    all.skip(i + k),
                    is_target,
                ) == env.split(s0, all, is_target),
            decreases make_deps.len() - k,
        {
            let ghost cur = Split { targets: targets@, missing: self.st().missing };
            proof {
                assert(all.skip(i + k)[0] == make_deps@[k as int]@);
                assert(all.skip(i + k).drop_first() =~= all.skip(i + k + 1));
                assert(all.take(i + k + 1) =~= all.take(i + k).push(make_deps@[k as int]@));
            }
            let Ghost(p) = self.split_target(&mut targets, &make_deps[k], is_target);
            proof {
                old(self).lemma_may_split(
                    env,
                    s0,
                    all.take(i + k),
                    picks,
                    is_target,
                    cur,
                    make_deps@[k as int]@,
                    p,
                );
                picks = picks.push(p);
            }
            k = k + 1;
        }
        proof {
            assert(all.take(i + k) =~= all);
        }
        targets
    }

    /// The targets may be told apart like that, the group callback having picked `picks`: for each
    /// target what it was asked about for it.
    pub open spec fn may_split_by(
        &self,
        env: Env<'a>,
        s: Split<'a>,
        ts: Seq<TargV>,
        picks: Seq<Seq<&'a AlpmPkg>>,
        is_target: bool,
        r: Split<'a>,
    ) -> bool {
        &&& picks.len() == ts.len()
        &&& forall|i: int|
            0 <= i < ts.len() && env.asks_group(#[trigger] ts[i], is_target) ==> self.may_pick(
                env.groups(ts[i]),
                picks[i],
            )
        &&& r == env.split_by(s, ts, picks, is_target)
    }

    /// The targets may be told apart like that, whatever the group callback answers.
    pub open spec fn may_split(&self, ts: Seq<TargV>, is_target: bool, r: Split<'a>) -> bool {
        exists|picks: Seq<Seq<&'a AlpmPkg>>| #[trigger]
            self.may_split_by(
                self.env(),
                Split::start(self.st().missing),
                ts,
                picks,
                is_target,
                r,
            )
    }

    /// One more target.
    proof fn lemma_may_split(
        &self,
        env: Env<'a>,
        s: Split<'a>,
        ts: Seq<TargV>,
        picks: Seq<Seq<&'a AlpmPkg>>,
        is_target: bool,
        r: Split<'a>,
        t: TargV,
        p: Seq<&'a AlpmPkg>,
    )
        requires
            self.may_split_by(env, s, ts, picks, is_target, r),
            env.asks_group(t, is_target) ==> self.may_pick(env.groups(t), p),
        ensures
            self.may_split_by(
                env,
                s,
                ts.push(t),
                picks.push(p),
                is_target,
                env.split_with(r, t, p, is_target),
            ),
    {
        lemma_split_by(env, s, ts, picks, picks.push(p), is_target);
        assert(ts.push(t).drop_last() =~= ts);
        assert forall|i: int|
            0 <= i < ts.push(t).len() && env.asks_group(#[trigger] ts.push(t)[i], is_target) implies
            self.may_pick(env.groups(ts.push(t)[i]), picks.push(p)[i]) by {
            if i < ts.len() {
                assert(env.asks_group(ts[i], is_target));
            }
        }
    }
}

/// Only what is picked for the targets matters.
proof fn lemma_split_by<'a>(
    env: Env<'a>,
    s: Split<'a>,
    ts: Seq<TargV>,
    p: Seq<Seq<&'a AlpmPkg>>,
    q: Seq<Seq<&'a AlpmPkg>>,
    is_target: bool,
)
    requires
        ts.len() <= p.len(),
        p.is_prefix_of(q),
    ensures
        env.split_by(s, ts, p, is_target) == env.split_by(s, ts, q, is_target),
    decreases ts.len(),
{
    if ts.len() > 0 {
        lemma_split_by(env, s, ts.drop_last(), p, q, is_target);
        assert(p[ts.len() - 1] == q[ts.len() - 1]);
    }
}

/// The target has been told: it has a source, or is missing.
pub open spec fn told<'a>(s: Split<'a>, t: TargV) -> bool {
    ||| exists|i: int| 0 <= i < s.targets.repo.len() && (#[trigger] s.targets.repo[i]).0 == t
    ||| s.targets.pkgbuild.contains(t)
    ||| s.targets.aur.contains(t.pkg)
    ||| exists|i: int| 0 <= i < s.missing.len() && (#[trigger] s.missing[i]).dep == t.text()
}

/// The second has told of more targets than the first.
spec fn tells_more<'a>(a: Split<'a>, b: Split<'a>) -> bool {
    &&& a.targets.repo.is_prefix_of(b.targets.repo)
    &&& a.targets.pkgbuild.is_prefix_of(b.targets.pkgbuild)
    &&& a.targets.aur.is_prefix_of(b.targets.aur)
    &&& a.missing.is_prefix_of(b.missing)
}

/// A target that has been told stays so.
proof fn lemma_told<'a>(a: Split<'a>, b: Split<'a>, t: TargV)
    requires
        tells_more(a, b),
        told(a, t),
    ensures
        told(b, t),
{
    let x = a.targets;
    let y = b.targets;
    if exists|i: int| 0 <= i < x.repo.len() && (#[trigger] x.repo[i]).0 == t {
        let i = choose|i: int| 0 <= i < x.repo.len() && (#[trigger] x.repo[i]).0 == t;
        assert(y.repo[i] == x.repo[i]);
    } else if x.pkgbuild.contains(t) {
        let i = choose|i: int| 0 <= i < x.pkgbuild.len() && x.pkgbuild[i] == t;
        assert(y.pkgbuild[i] == t);
    } else if x.aur.contains(t.pkg) {
        let i = choose|i: int| 0 <= i < x.aur.len() && x.aur[i] == t.pkg;
        assert(y.aur[i] == t.pkg);
    } else {
        let i = choose|i: int| 0 <= i < a.missing.len() && (#[trigger] a.missing[i]).dep == t.text();
        assert(b.missing[i] == a.missing[i]);
    }
}

/// The target needs no source: what it asks for is taken as installed, or it is a group from which
/// nothing was picked.
pub open spec fn needs_none<'a>(env: Env<'a>, t: TargV, is_target: bool) -> bool {
    ||| !is_target && env.assumed((env.m.depend)(t.text()))
    ||| is_target && env.groups(t).len() > 0 && env.picked(env.groups(t)).len() == 0
}

/// One target.
proof fn lemma_split_one<'a>(env: Env<'a>, s: Split<'a>, t: TargV, is_target: bool)
    ensures
        tells_more(s, env.split_one(s, t, is_target)),
        needs_none(env, t, is_target) || told(env.split_one(s, t, is_target), t),
{
    let r = env.split_one(s, t, is_target);
    let n = s.targets.repo.len() as int;
    if r.targets.repo.len() > n {
        assert(r.targets.repo[n].0 == t);
    }
    if r.targets.pkgbuild.len() > s.targets.pkgbuild.len() {
        assert(r.targets.pkgbuild[s.targets.pkgbuild.len() as int] == t);
    }
    if r.targets.aur.len() > s.targets.aur.len() {
        assert(r.targets.aur[s.targets.aur.len() as int] == t.pkg);
    }
    if r.missing.len() > s.missing.len() {
        assert(r.missing[s.missing.len() as int].dep == t.text());
    }
}

/// Several targets.
proof fn lemma_split<'a>(env: Env<'a>, s: Split<'a>, ts: Seq<TargV>, is_target: bool)
    ensures
        tells_more(s, env.split(s, ts, is_target)),
        forall|i: int|
            0 <= i < ts.len() ==> needs_none(env, #[trigger] ts[i], is_target) || told(
                env.split(s, ts, is_target),
                ts[i],
            ),
    decreases ts.len(),
{
    if ts.len() > 0 {
        let m = env.split_one(s, ts[0], is_target);
        let r = env.split(s, ts, is_target);
        lemma_split_one(env, s, ts[0], is_target);
        lemma_split(env, m, ts.drop_first(), is_target);
        assert forall|i: int| 0 <= i < ts.len() implies needs_none(env, #[trigger] ts[i], is_target)
            || told(r, ts[i]) by {
            if i == 0 {
                if told(m, ts[0]) {
                    lemma_told(m, r, ts[0]);
                }
            } else {
                assert(ts.drop_first()[i - 1] == ts[i]);
            }
        }
    }
}

/// No target is lost: each has a source or is missing, unless it needs none.
pub proof fn law_split<'a>(env: Env<'a>, s: Split<'a>, ts: Seq<TargV>, is_target: bool, i: int)
    requires
        0 <= i < ts.len(),
    ensures
        needs_none(env, ts[i], is_target) || told(env.split(s, ts, is_target), ts[i]),
{
    lemma_split(env, s, ts, is_target);
}

} // verus!
