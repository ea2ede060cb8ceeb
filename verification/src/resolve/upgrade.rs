//! Finding the packages that should be updated.
use std::sync::Arc;
use vstd::prelude::*;
use crate::alpm::{Alpm, AlpmPkg, Db};
use crate::cache;
use crate::cb::Group;
use crate::depend::VerOrder;
use crate::flags::Flags;
use crate::model;
use crate::model::Env;
use crate::pkg::{AurPkg, Srcinfo, SrcinfoPkg};
use crate::resolve::queries::has_name;
use crate::resolve::Resolver;
use crate::seqs;
use crate::text;

pub mod laws;

verus! {

/// An AUR package that should be updated.
#[derive(Debug, Clone)]
pub struct AurUpdate<'a> {
    /// The local package.
    pub local: &'a AlpmPkg,
    /// The AUR package.
    pub remote: Arc<AurPkg>,
}

/// A pkgbuild that should be updated.
#[derive(Debug, Clone)]
pub struct PkgbuildUpdate<'a> {
    /// The local package.
    pub local: &'a AlpmPkg,
    /// The pkgbuild repo the package belongs to.
    pub repo: String,
    /// The pkgbuild package base srcinfo.
    pub remote_srcinfo: &'a Srcinfo,
    /// The pkgbuild package base package.
    pub remote_pkg: &'a SrcinfoPkg,
}

/// A pkgbuild that should be updated, over characters.
pub struct PkgbuildUpdateV<'a> {
    pub local: &'a AlpmPkg,
    pub repo: Seq<char>,
    pub remote_srcinfo: &'a Srcinfo,
    pub remote_pkg: &'a SrcinfoPkg,
}

/// Collection of updates and missing packages.
#[derive(Debug)]
pub struct Updates<'a> {
    /// The aur updates.
    pub aur_updates: Vec<AurUpdate<'a>>,
    /// The pkgbuild updates.
    pub pkgbuild_updates: Vec<PkgbuildUpdate<'a>>,
    /// Packages that matched ignore pkg/group.
    pub aur_ignored: Vec<AurUpdate<'a>>,
    /// Packages that matched ignore pkg/group.
    pub pkgbuild_ignored: Vec<PkgbuildUpdate<'a>>,
    /// Packages that were not found in the AUR or elsewhere.
    pub missing: Vec<&'a AlpmPkg>,
}

/// The packages for which updates are looked for.
#[derive(Debug)]
pub struct UpdateTargets<'a> {
    /// Packages that are in a pkgbuild repo.
    pub pkgbuilds: Vec<&'a AlpmPkg>,
    /// The others, which may be in the AUR.
    pub aur: Vec<&'a AlpmPkg>,
}

impl<'a> View for PkgbuildUpdate<'a> {
    type V = PkgbuildUpdateV<'a>;

    open spec fn view(&self) -> PkgbuildUpdateV<'a> {
        PkgbuildUpdateV {
            local: self.local,
            repo: self.repo@,
            remote_srcinfo: self.remote_srcinfo,
            remote_pkg: self.remote_pkg,
        }
    }
}

/// The pkgbuild updates of a list over characters.
pub open spec fn pkgbuild_updates<'a>(v: Seq<PkgbuildUpdate<'a>>) -> Seq<PkgbuildUpdateV<'a>> {
    v.map_values(|u: PkgbuildUpdate<'a>| u@)
}

/// The packages by reference.
pub open spec fn refs<'a>(v: Seq<AlpmPkg>) -> Seq<&'a AlpmPkg> {
    Seq::new(v.len(), |i: int| &v[i])
}

/// The packages of a database.
pub open spec fn db_pkgs<'a>() -> spec_fn(Db) -> Seq<&'a AlpmPkg> {
    |db: Db| refs(db.pkgs@)
}

/// The database is one of those named.
pub open spec fn db_among(names: Seq<Seq<char>>) -> spec_fn(Db) -> bool {
    |db: Db| names.contains(db.name@)
}

/// The database has a package with the name.
pub open spec fn db_has(name: Seq<char>) -> spec_fn(Db) -> bool {
    |db: Db| seqs::any(db.pkgs@, model::alpm_named(name))
}

impl<'a> Env<'a> {
    /// No sync database has a package with the name of the package.
    pub open spec fn foreign(self) -> spec_fn(&'a AlpmPkg) -> bool {
        |p: &'a AlpmPkg| !seqs::any(self.m.system.syncdbs@, db_has(p.name@))
    }

    /// The packages for which updates are looked for: those of the named sync databases, or the
    /// installed packages that no sync database has.
    pub open spec fn update_targs(self, local: Option<Seq<Seq<char>>>) -> Seq<&'a AlpmPkg> {
        match local {
            Some(names) => seqs::flat(self.m.system.syncdbs@.filter(db_among(names)), db_pkgs()),
            None => refs(self.m.system.localdb@).filter(self.foreign()),
        }
    }

    /// A pkgbuild repo has a package with the name of the package.
    pub open spec fn has_pkgbuild(self) -> spec_fn(&'a AlpmPkg) -> bool {
        |p: &'a AlpmPkg| model::pkgbuild_named(self.repos, p.name@) is Some
    }

    /// No pkgbuild repo has a package with the name of the package.
    pub open spec fn no_pkgbuild(self) -> spec_fn(&'a AlpmPkg) -> bool {
        |p: &'a AlpmPkg| model::pkgbuild_named(self.repos, p.name@) is None
    }

    /// A package of the new version should replace one of the old: where it is newer, or, with
    /// downgrades enabled, where it differs.
    pub open spec fn should_upgrade(self, new: Seq<char>, old: Seq<char>) -> bool {
        let order = (self.m.vercmp)(new, old);
        if self.flags.has(Flags::ENABLE_DOWNGRADE) {
            order != VerOrder::Equal
        } else {
            order == VerOrder::Greater
        }
    }

    /// The update of a package from a pkgbuild repo.
    pub open spec fn pkgbuild_update(self) -> spec_fn(&'a AlpmPkg) -> PkgbuildUpdateV<'a> {
        |p: &'a AlpmPkg|
            {
                let found = model::pkgbuild_named(self.repos, p.name@)->0;
                PkgbuildUpdateV {
                    local: p,
                    repo: found.0,
                    remote_srcinfo: found.1,
                    remote_pkg: found.2,
                }
            }
    }

    /// The package should be updated from a pkgbuild repo, and is ignored or not as told.
    pub open spec fn pkgbuild_updates(self, ignored: bool) -> spec_fn(&'a AlpmPkg) -> bool {
        |p: &'a AlpmPkg|
            self.should_upgrade(
                (model::pkgbuild_named(self.repos, p.name@)->0).1.full_version(),
                p.version@,
            ) && p.ignore == ignored
    }

    /// The update of a package from the AUR.
    pub open spec fn aur_update(self) -> spec_fn(&'a AlpmPkg) -> AurUpdate<'a> {
        |p: &'a AlpmPkg| AurUpdate { local: p, remote: cache::lookup(self.cache, p.name@)->0 }
    }

    /// The package should be updated from the AUR, and is ignored or not as told.
    pub open spec fn aur_updates(self, ignored: bool) -> spec_fn(&'a AlpmPkg) -> bool {
        |p: &'a AlpmPkg|
            cache::lookup(self.cache, p.name@) is Some && self.should_upgrade(
                (cache::lookup(self.cache, p.name@)->0).version@,
                p.version@,
            ) && p.ignore == ignored
    }

    /// The package is not in the AUR.
    pub open spec fn not_in_aur(self) -> spec_fn(&'a AlpmPkg) -> bool {
        |p: &'a AlpmPkg| cache::lookup(self.cache, p.name@) is None
    }
}

/// Without downgrades no package is updated that is not updated with downgrades enabled.
pub proof fn lemma_downgrade<'a>(env: Env<'a>, flags: Flags, new: Seq<char>, old: Seq<char>)
    requires
        flags.has(Flags::ENABLE_DOWNGRADE),
        env.should_upgrade(new, old),
    ensures
        (Env { flags, ..env }).should_upgrade(new, old),
{
}

/// A package that may be in the AUR is updated, ignored, missing or up to date, and only one of
/// these.
pub proof fn lemma_update_kinds<'a>(env: Env<'a>, p: &'a AlpmPkg)
    ensures
        !(env.aur_updates(false)(p) && env.aur_updates(true)(p)),
        !(env.aur_updates(p.ignore)(p) && env.not_in_aur()(p)),
        !env.aur_updates(p.ignore)(p) && !env.not_in_aur()(p) ==> !env.should_upgrade(
            (cache::lookup(env.cache, p.name@)->0).version@,
            p.version@,
        ),
{
}

impl<
    'a,
    A: Alpm,
    P: Fn(&str, &[String]) -> usize,
    G: Fn(&[Group<'a>]) -> Vec<&'a AlpmPkg>,
    D: Fn(&str) -> bool,
> Resolver<'a, A, P, G, D> {
    /// Does no sync database have a package with the name of the package.
    fn is_foreign(&self, pkg: &'a AlpmPkg) -> (r: bool)
        requires
            self.able(),
        ensures
            r == self.env().foreign()(pkg),
    {
        let dbs = &self.alpm.system().syncdbs;
        let ghost p = model::alpm_named(pkg.name@);
        let ghost q = db_has(pkg.name@);
        let mut i: usize = 0;
        while i < dbs.len()
            invariant
                i <= dbs.len(),
                *dbs == self.env().m.system.syncdbs,
                p == model::alpm_named(pkg.name@),
                q == db_has(pkg.name@),
                forall|j: int| 0 <= j < i ==> !q(#[trigger] dbs@[j]),
            decreases dbs.len() - i,
        {
            let pkgs = &dbs[i].pkgs;
            let mut k: usize = 0;
            while k < pkgs.len()
                invariant
                    i < dbs.len(),
                    *dbs == self.env().m.system.syncdbs,
                    k <= pkgs.len(),
                    *pkgs == dbs@[i as int].pkgs,
                    p == model::alpm_named(pkg.name@),
                    q == db_has(pkg.name@),
                    forall|j: int| 0 <= j < k ==> !p(#[trigger] pkgs@[j]),
                decreases pkgs.len() - k,
            {
                if pkgs[k].name == pkg.name {
                    assert(p(pkgs@[k as int]));
                    assert(q(dbs@[i as int]));
                    return false;
                }
                k = k + 1;
            }
            i = i + 1;
        }
        true
    }

    /// The packages for which updates are looked for.
    pub fn update_targs(&self, local: Option<&Vec<String>>) -> (r: Vec<&'a AlpmPkg>)
        requires
            self.able(),
        ensures
            r@ == self.env().update_targs(
                match local {
                    Some(names) => Some(text::strs(names@)),
                    None => None,
                },
            ),
    {
        let mut r: Vec<&'a AlpmPkg> = Vec::new();
        let mut i: usize = 0;
        match local {
            Some(names) => {
                let dbs = &self.alpm.system().syncdbs;
                let ghost p = db_among(text::strs(names@));
                let ghost f = db_pkgs::<'a>();
                proof {
                    seqs::lemma_filter_none(dbs@, p);
                }
                while i < dbs.len()
                    invariant
                        i <= dbs.len(),
                        *dbs == self.env().m.system.syncdbs,
                        p == db_among(text::strs(names@)),
                        f == db_pkgs::<'a>(),
                        r@ == seqs::flat(dbs@.take(i as int).filter(p), f),
                    decreases dbs.len() - i,
                {
                    let db = &dbs[i];
                    proof {
                        seqs::lemma_filter_take(dbs@, p, i as int);
                    }
                    if has_name(names, &db.name) {
                        let ghost before = r@;
                        let ghost all = refs::<'a>(db.pkgs@);
                        let mut k: usize = 0;
                        proof {
                            assert(before + all.take(0) =~= before);
                        }
                        while k < db.pkgs.len()
                            invariant
                                k <= db.pkgs.len(),
                                all == refs::<'a>(db.pkgs@),
                                r@ == before + all.take(k as int),
                            decreases db.pkgs.len() - k,
                        {
                            r.push(&db.pkgs[k]);
                            proof {
                                assert(all.take(k + 1) =~= all.take(k as int).push(
                                    &db.pkgs@[k as int],
                                ));
                                assert(r@ =~= before + all.take(k + 1));
                            }
                            k = k + 1;
                        }
                        proof {
                            assert(all.take(k as int) =~= all);
                            assert(p(dbs@[i as int]));
                            seqs::lemma_flat_push(
                                dbs@.take(i as int).filter(p),
                                f,
                                dbs@[i as int],
                            );
                        }
                    } else {
                        assert(!p(dbs@[i as int]));
                    }
                    i = i + 1;
                }
                proof {
                    assert(dbs@.take(i as int) =~= dbs@);
                }
            },
            None => {
                let pkgs = &self.alpm.system().localdb;
                let ghost all = refs::<'a>(pkgs@);
                let ghost p = self.env().foreign();
                proof {
                    seqs::lemma_filter_none(all, p);
                }
                while i < pkgs.len()
                    invariant
                        self.able(),
                        i <= pkgs.len(),
                        *pkgs == self.env().m.system.localdb,
                        all == refs::<'a>(pkgs@),
                        p == self.env().foreign(),
                        r@ == all.take(i as int).filter(p),
                    decreases pkgs.len() - i,
                {
                    proof {
                        assert(all[i as int] == &pkgs@[i as int]);
                        seqs::lemma_filter_take(all, p, i as int);
                    }
                    if self.is_foreign(&pkgs[i]) {
                        r.push(&pkgs[i]);
                    }
                    i = i + 1;
                }
                proof {
                    assert(all.take(i as int) =~= all);
                }
            },
        }
        r
    }

    /// The packages for which updates are looked for, by where they are looked for. The AUR is to
    /// be asked for the info of those in `aur`.
    pub fn update_targets(&self, local: Option<&Vec<String>>) -> (r: UpdateTargets<'a>)
        requires
            self.able(),
        ensures
            ({
                let targs = self.env().update_targs(
                    match local {
                        Some(names) => Some(text::strs(names@)),
                        None => None,
                    },
                );
                &&& r.pkgbuilds@ == (if self.env().flags.has(Flags::PKGBUILDS) {
                    targs.filter(self.env().has_pkgbuild())
                } else {
                    Seq::empty()
                })
                &&& r.aur@ == (if self.env().flags.has(Flags::AUR) {
                    targs.filter(self.env().no_pkgbuild())
                } else {
                    Seq::empty()
                })
            }),
    {
        let targs = self.update_targs(local);
        let ghost p = self.env().has_pkgbuild();
        let ghost q = self.env().no_pkgbuild();
        let mut pkgbuilds: Vec<&'a AlpmPkg> = Vec::new();
        let mut aur: Vec<&'a AlpmPkg> = Vec::new();
        let mut i: usize = 0;
        proof {
            seqs::lemma_filter_none(targs@, p);
            seqs::lemma_filter_none(targs@, q);
        }
        while i < targs.len()
            invariant
                i <= targs.len(),
                p == self.env().has_pkgbuild(),
                q == self.env().no_pkgbuild(),
                pkgbuilds@ == targs@.take(i as int).filter(p),
                aur@ == targs@.take(i as int).filter(q),
            decreases targs.len() - i,
        {
            proof {
                seqs::lemma_filter_take(targs@, p, i as int);
                seqs::lemma_filter_take(targs@, q, i as int);
            }
            if self.is_pkgbuild(&targs[i].name) {
                assert(p(targs@[i as int]) && !q(targs@[i as int]));
                pkgbuilds.push(targs[i]);
            } else {
                assert(!p(targs@[i as int]) && q(targs@[i as int]));
                aur.push(targs[i]);
            }
            i = i + 1;
        }
        proof {
            assert(targs@.take(i as int) =~= targs@);
        }
        if !self.flags.contains(Flags::AUR) {
            aur.clear();
        }
        if !self.flags.contains(Flags::PKGBUILDS) {
            pkgbuilds.clear();
        }
        UpdateTargets { pkgbuilds, aur }
    }

    /// Should a package of the new version replace one of the old.
    fn is_upgrade(&self, new: &String, old: &String) -> (r: bool)
        requires
            self.able(),
        ensures
            r == self.env().should_upgrade(new@, old@),
    {
        let order = self.alpm.vercmp(new.as_str(), old.as_str());
        if self.flags.contains(Flags::ENABLE_DOWNGRADE) {
            order != VerOrder::Equal
        } else {
            order == VerOrder::Greater
        }
    }

    /// Tells which packages need to be updated. The info of the packages that may be in the AUR is
    /// to be in the cache by now.
    pub fn updates(&self, targs: &UpdateTargets<'a>) -> (r: Updates<'a>)
        requires
            self.able(),
            forall|i: int|
                0 <= i < targs.pkgbuilds@.len() ==> self.env().has_pkgbuild()(
                    #[trigger] targs.pkgbuilds@[i],
                ),
        ensures
            pkgbuild_updates(r.pkgbuild_updates@) == targs.pkgbuilds@.filter(
                self.env().pkgbuild_updates(false),
            ).map_values(self.env().pkgbuild_update()),
            pkgbuild_updates(r.pkgbuild_ignored@) == targs.pkgbuilds@.filter(
                self.env().pkgbuild_updates(true),
            ).map_values(self.env().pkgbuild_update()),
            r.aur_updates@ == targs.aur@.filter(self.env().aur_updates(false)).map_values(
                self.env().aur_update(),
            ),
            r.aur_ignored@ == targs.aur@.filter(self.env().aur_updates(true)).map_values(
                self.env().aur_update(),
            ),
            r.missing@ == targs.aur@.filter(self.env().not_in_aur()),
            forall|i: int|
                0 <= i < r.pkgbuild_updates@.len() ==> laws::pkgbuild_right(
                    self.env(),
                    targs.pkgbuilds@,
                    false,
                    (#[trigger] r.pkgbuild_updates@[i])@,
                ),
            forall|i: int|
                0 <= i < r.pkgbuild_ignored@.len() ==> laws::pkgbuild_right(
                    self.env(),
                    targs.pkgbuilds@,
                    true,
                    (#[trigger] r.pkgbuild_ignored@[i])@,
                ),
            forall|i: int|
                0 <= i < r.aur_updates@.len() ==> laws::aur_right(
                    self.env(),
                    targs.aur@,
                    false,
                    #[trigger] r.aur_updates@[i],
                ),
            forall|i: int|
                0 <= i < r.aur_ignored@.len() ==> laws::aur_right(
                    self.env(),
                    targs.aur@,
                    true,
                    #[trigger] r.aur_ignored@[i],
                ),
    {
        let ghost env = self.env();
        let ghost p = env.pkgbuild_updates(false);
        let ghost q = env.pkgbuild_updates(true);
        let ghost f = env.pkgbuild_update();
        let ghost all = targs.pkgbuilds@;
        let mut r = Updates {
            aur_updates: Vec::new(),
            pkgbuild_updates: Vec::new(),
            aur_ignored: Vec::new(),
            pkgbuild_ignored: Vec::new(),
            missing: Vec::new(),
        };
        let mut i: usize = 0;
        proof {
            seqs::lemma_filter_none(all, p);
            seqs::lemma_filter_none(all, q);
            assert(pkgbuild_updates(r.pkgbuild_updates@) =~= all.take(0).filter(p).map_values(f));
            assert(pkgbuild_updates(r.pkgbuild_ignored@) =~= all.take(0).filter(q).map_values(f));
        }
        while i < targs.pkgbuilds.len()
            invariant
                self.able(),
                env == self.env(),
                i <= targs.pkgbuilds.len(),
                all == targs.pkgbuilds@,
                p == env.pkgbuild_updates(false),
                q == env.pkgbuild_updates(true),
                f == env.pkgbuild_update(),
                forall|i: int| 0 <= i < all.len() ==> env.has_pkgbuild()(#[trigger] all[i]),
                pkgbuild_updates(r.pkgbuild_updates@) == all.take(i as int).filter(p).map_values(f),
                pkgbuild_updates(r.pkgbuild_ignored@) == all.take(i as int).filter(q).map_values(f),
                r.aur_updates@.len() == 0,
                r.aur_ignored@.len() == 0,
                r.missing@.len() == 0,
            decreases targs.pkgbuilds.len() - i,
        {
            let local = targs.pkgbuilds[i];
            proof {
                assert(env.has_pkgbuild()(all[i as int]));
                seqs::lemma_filter_map_take(all, p, f, i as int);
                seqs::lemma_filter_map_take(all, q, f, i as int);
            }
            if let Some((repo, srcinfo, remote)) = self.find_pkgbuild(&local.name) {
                if self.is_upgrade(&srcinfo.version(), &local.version) {
                    let update = PkgbuildUpdate {
                        local,
                        repo: repo.clone(),
                        remote_srcinfo: srcinfo,
                        remote_pkg: remote,
                    };
                    assert(update@ == f(local));
                    if local.ignore {
                        let ghost before = r.pkgbuild_ignored@;
                        r.pkgbuild_ignored.push(update);
                        proof {
                            assert(pkgbuild_updates(r.pkgbuild_ignored@) =~= pkgbuild_updates(
                                before,
                            ).push(f(local)));
                        }
                    } else {
                        let ghost before = r.pkgbuild_updates@;
                        r.pkgbuild_updates.push(update);
                        proof {
                            assert(pkgbuild_updates(r.pkgbuild_updates@) =~= pkgbuild_updates(
                                before,
                            ).push(f(local)));
                        }
                    }
                }
            }
            i = i + 1;
        }
        proof {
            assert(all.take(i as int) =~= all);
        }
        let ghost done = r;
        let ghost p = env.aur_updates(false);
        let ghost q = env.aur_updates(true);
        let ghost m = env.not_in_aur();
        let ghost f = env.aur_update();
        let ghost all = targs.aur@;
        let mut i: usize = 0;
        proof {
            seqs::lemma_filter_none(all, p);
            seqs::lemma_filter_none(all, q);
            seqs::lemma_filter_none(all, m);
            assert(r.aur_updates@ =~= all.take(0).filter(p).map_values(f));
            assert(r.aur_ignored@ =~= all.take(0).filter(q).map_values(f));
            assert(r.missing@ =~= all.take(0).filter(m));
        }
        while i < targs.aur.len()
            invariant
                self.able(),
                env == self.env(),
                i <= targs.aur.len(),
                all == targs.aur@,
                p == env.aur_updates(false),
                q == env.aur_updates(true),
                m == env.not_in_aur(),
                f == env.aur_update(),
                r.pkgbuild_updates == done.pkgbuild_updates,
                r.pkgbuild_ignored == done.pkgbuild_ignored,
                r.aur_updates@ == all.take(i as int).filter(p).map_values(f),
                r.aur_ignored@ == all.take(i as int).filter(q).map_values(f),
                r.missing@ == all.take(i as int).filter(m),
            decreases targs.aur.len() - i,
        {
            let local = targs.aur[i];
            proof {
                seqs::lemma_filter_map_take(all, p, f, i as int);
                seqs::lemma_filter_map_take(all, q, f, i as int);
                seqs::lemma_filter_take(all, m, i as int);
            }
            match self.cache.get(&local.name) {
                Some(pkg) => {
                    if self.is_upgrade(&pkg.version, &local.version) {
                        let update = AurUpdate { local, remote: pkg.clone() };
                        if local.ignore {
                            r.aur_ignored.push(update);
                        } else {
                            r.aur_updates.push(update);
                        }
                    }
                },
                None => {
                    r.missing.push(local);
                },
            }
            i = i + 1;
        }
        proof {
            assert(all.take(i as int) =~= all);
            assert forall|i: int| 0 <= i < r.pkgbuild_updates@.len() implies laws::pkgbuild_right(
                self.env(),
                targs.pkgbuilds@,
                false,
                (#[trigger] r.pkgbuild_updates@[i])@,
            ) by {
                laws::law_updates_right(self.env(), targs.pkgbuilds@, targs.aur@, false, i);
                assert(pkgbuild_updates(r.pkgbuild_updates@)[i] == r.pkgbuild_updates@[i]@);
            }
            assert forall|i: int| 0 <= i < r.pkgbuild_ignored@.len() implies laws::pkgbuild_right(
                self.env(),
                targs.pkgbuilds@,
                true,
                (#[trigger] r.pkgbuild_ignored@[i])@,
            ) by {
                laws::law_updates_right(self.env(), targs.pkgbuilds@, targs.aur@, true, i);
                assert(pkgbuild_updates(r.pkgbuild_ignored@)[i] == r.pkgbuild_ignored@[i]@);
            }
            assert forall|i: int| 0 <= i < r.aur_updates@.len() implies laws::aur_right(
                self.env(),
                targs.aur@,
                false,
                #[trigger] r.aur_updates@[i],
            ) by {
                laws::law_updates_right(self.env(), targs.pkgbuilds@, targs.aur@, false, i);
            }
            assert forall|i: int| 0 <= i < r.aur_ignored@.len() implies laws::aur_right(
                self.env(),
                targs.aur@,
                true,
                #[trigger] r.aur_ignored@[i],
            ) by {
                laws::law_updates_right(self.env(), targs.pkgbuilds@, targs.aur@, true, i);
            }
        }
        r
    }
}

} // verus!
