//! Conflicts among what is to be installed and with what is installed.
use vstd::hash_set::StringHashSet;
use vstd::prelude::*;
use crate::actions::Actions;
use crate::alpm::{Alpm, AlpmModel, AlpmPkg};
use crate::base;
use crate::base::{AurPackage, BuildPkg, Package, Pkgbuild, RepoPackage};
use crate::depend;
use crate::depend::{Depend, DependV};
use crate::pkg;
use crate::pkg::Srcinfo;
use crate::satisfies;
use crate::satisfies::Satisfies;
use crate::seqs;
use crate::text;

pub mod inner;
pub mod meaning;

verus! {

/// A conflict.
#[derive(Debug, Clone, PartialEq, Eq, PartialOrd, Ord, Hash)]
pub struct Conflict {
    /// The name of the package.
    pub pkg: String,
    /// The packages conflicting with it.
    pub conflicting: Vec<Conflicting>,
}

/// A package that has conflicted with something.
#[derive(Debug, Clone, PartialEq, Eq, PartialOrd, Ord, Hash)]
pub struct Conflicting {
    /// The name of the package.
    pub pkg: String,
    /// The conflict that caused the confliction if it is different from the pkgname.
    pub conflict: Option<String>,
}

/// A conflict over characters.
#[verifier::ext_equal]
pub struct ConflictV {
    pub pkg: Seq<char>,
    pub conflicting: Seq<ConflictingV>,
}

/// A package that has conflicted with something, over characters.
#[verifier::ext_equal]
pub struct ConflictingV {
    pub pkg: Seq<char>,
    pub conflict: Option<Seq<char>>,
}

/// The package `pkg` conflicts with the package `with` by the conflict `dep`.
pub struct Clash {
    pub pkg: Seq<char>,
    pub with: Seq<char>,
    pub dep: DependV,
}

impl View for Conflicting {
    type V = ConflictingV;

    open spec fn view(&self) -> ConflictingV {
        ConflictingV { pkg: self.pkg@, conflict: text::opt_str(self.conflict) }
    }
}

/// The conflicting packages of a list over characters.
pub open spec fn conflictings(v: Seq<Conflicting>) -> Seq<ConflictingV> {
    v.map_values(|c: Conflicting| c@)
}

impl View for Conflict {
    type V = ConflictV;

    open spec fn view(&self) -> ConflictV {
        ConflictV { pkg: self.pkg@, conflicting: conflictings(self.conflicting@) }
    }
}

/// The conflicts of a list over characters.
pub open spec fn conflict_list(v: Seq<Conflict>) -> Seq<ConflictV> {
    v.map_values(|c: Conflict| c@)
}

/// A conflicting package: the conflict is kept where it says more than the name of the package.
pub open spec fn shown(with: Seq<char>, dep: DependV) -> ConflictingV {
    ConflictingV {
        pkg: with,
        conflict: if with != dep.name || !(dep.depmodver is Any) {
            Some(dep.text)
        } else {
            None
        },
    }
}

impl Conflict {
    /// Create a new conflict.
    pub fn new(pkg: String) -> (r: Self)
        ensures
            r@ == (ConflictV { pkg: pkg@, conflicting: Seq::empty() }),
    {
        let r = Conflict { pkg, conflicting: Vec::new() };
        proof {
            assert(r@.conflicting =~= Seq::empty());
        }
        r
    }

    /// Push a new conflicting to the conflict.
    pub fn push(&mut self, pkg: String, conflict: &Depend)
        ensures
            final(self)@ == (ConflictV {
                pkg: old(self)@.pkg,
                conflicting: old(self)@.conflicting.push(shown(pkg@, conflict@)),
            }),
    {
        let ghost before = self.conflicting@;
        let conflict = if pkg != conflict.name || !conflict.depmodver.is_any() {
            Some(conflict.text.clone())
        } else {
            None
        };
        self.conflicting.push(Conflicting { pkg, conflict });
        proof {
            assert(conflictings(self.conflicting@) =~= conflictings(before).push(
                self.conflicting@.last()@,
            ));
        }
    }
}

/// The clash is one of the package.
pub open spec fn about(pkg: Seq<char>) -> spec_fn(Clash) -> bool {
    |c: Clash| c.pkg == pkg
}

/// The conflicting package of a clash.
pub open spec fn clash_shown() -> spec_fn(Clash) -> ConflictingV {
    |c: Clash| shown(c.with, c.dep)
}

/// The conflicts are sorted by package, one for each package with clashes, and list the clashes of
/// the package in order.
pub open spec fn grouped(clashes: Seq<Clash>, r: Seq<ConflictV>) -> bool {
    &&& forall|i: int, j: int|
        0 <= i < j < r.len() ==> text::str_lt(#[trigger] r[i].pkg, #[trigger] r[j].pkg)
    &&& forall|k: int| 0 <= k < clashes.len() ==> has_entry(r, (#[trigger] clashes[k]).pkg)
    &&& forall|i: int|
        0 <= i < r.len() ==> (#[trigger] r[i]).conflicting.len() > 0 && r[i].conflicting
            == clashes.filter(about(r[i].pkg)).map_values(clash_shown())
}

/// There is a conflict of the package.
pub open spec fn has_entry(r: Seq<ConflictV>, pkg: Seq<char>) -> bool {
    exists|i: int| 0 <= i < r.len() && (#[trigger] r[i]).pkg == pkg
}

/// One more clash of a package that has a conflict.
proof fn lemma_join(clashes: Seq<Clash>, r: Seq<ConflictV>, i: int, c: Clash, new: ConflictV)
    requires
        grouped(clashes, r),
        0 <= i < r.len(),
        r[i].pkg == c.pkg,
        new == (ConflictV {
            pkg: c.pkg,
            conflicting: r[i].conflicting.push(shown(c.with, c.dep)),
        }),
    ensures
        grouped(clashes.push(c), r.update(i, new)),
{
    let all = clashes.push(c);
    let s = r.update(i, new);
    assert forall|k: int| 0 <= k < all.len() implies has_entry(s, (#[trigger] all[k]).pkg) by {
        if k < clashes.len() {
            assert(has_entry(r, clashes[k].pkg));
            let j = choose|j: int| 0 <= j < r.len() && (#[trigger] r[j]).pkg == clashes[k].pkg;
            assert(s[j].pkg == all[k].pkg);
        } else {
            assert(s[i].pkg == all[k].pkg);
        }
    }
    assert forall|j: int| 0 <= j < s.len() implies (#[trigger] s[j]).conflicting.len() > 0
        && s[j].conflicting == all.filter(about(s[j].pkg)).map_values(clash_shown()) by {
        seqs::lemma_filter_push(clashes, about(s[j].pkg), c);
        if j == i {
            let f = clashes.filter(about(c.pkg));
            assert(f.push(c).map_values(clash_shown()) =~= f.map_values(clash_shown()).push(
                shown(c.with, c.dep),
            ));
        } else {
            assert(r[j].conflicting.len() > 0);
            text::lemma_str_lt_total(r[i].pkg, r[j].pkg);
            if i < j {
                assert(text::str_lt(r[i].pkg, r[j].pkg));
            } else {
                assert(text::str_lt(r[j].pkg, r[i].pkg));
            }
            assert(!about(s[j].pkg)(c));
        }
    }
    assert forall|x: int, y: int| 0 <= x < y < s.len() implies text::str_lt(
        #[trigger] s[x].pkg,
        #[trigger] s[y].pkg,
    ) by {
        assert(text::str_lt(r[x].pkg, r[y].pkg));
    }
}

/// One clash of a package that has no conflict.
proof fn lemma_enter(clashes: Seq<Clash>, r: Seq<ConflictV>, i: int, c: Clash, new: ConflictV)
    requires
        grouped(clashes, r),
        0 <= i <= r.len(),
        forall|j: int| 0 <= j < i ==> text::str_lt(#[trigger] r[j].pkg, c.pkg),
        forall|j: int| i <= j < r.len() ==> text::str_lt(c.pkg, #[trigger] r[j].pkg),
        new == (ConflictV { pkg: c.pkg, conflicting: seq![shown(c.with, c.dep)] }),
    ensures
        grouped(clashes.push(c), r.insert(i, new)),
{
    let all = clashes.push(c);
    let s = r.insert(i, new);
    assert forall|k: int| 0 <= k < clashes.len() implies !about(c.pkg)(#[trigger] clashes[k]) by {
        assert(has_entry(r, clashes[k].pkg));
        let j = choose|j: int| 0 <= j < r.len() && (#[trigger] r[j]).pkg == clashes[k].pkg;
        text::lemma_str_lt_total(c.pkg, r[j].pkg);
        text::lemma_str_lt_total(r[j].pkg, c.pkg);
    }
    seqs::lemma_filter_empty(clashes, about(c.pkg));
    assert forall|k: int| 0 <= k < all.len() implies has_entry(s, (#[trigger] all[k]).pkg) by {
        if k < clashes.len() {
            assert(has_entry(r, clashes[k].pkg));
            let j = choose|j: int| 0 <= j < r.len() && (#[trigger] r[j]).pkg == clashes[k].pkg;
            if j < i {
                assert(s[j].pkg == all[k].pkg);
            } else {
                assert(s[j + 1].pkg == all[k].pkg);
            }
        } else {
            assert(s[i].pkg == all[k].pkg);
        }
    }
    assert forall|j: int| 0 <= j < s.len() implies (#[trigger] s[j]).conflicting.len() > 0
        && s[j].conflicting == all.filter(about(s[j].pkg)).map_values(clash_shown()) by {
        seqs::lemma_filter_push(clashes, about(s[j].pkg), c);
        if j == i {
            assert(Seq::<Clash>::empty().push(c).map_values(clash_shown()) =~= seq![
                shown(c.with, c.dep),
            ]);
        } else {
            let o = if j < i {
                r[j]
            } else {
                r[j - 1]
            };
            assert(s[j] == o);
            assert(o.conflicting.len() > 0);
            text::lemma_str_lt_total(c.pkg, o.pkg);
            text::lemma_str_lt_total(o.pkg, c.pkg);
            assert(!about(s[j].pkg)(c));
        }
    }
    assert forall|x: int, y: int| 0 <= x < y < s.len() implies text::str_lt(
        #[trigger] s[x].pkg,
        #[trigger] s[y].pkg,
    ) by {
        let a = if x < i {
            x
        } else {
            x - 1
        };
        let b = if y < i {
            y
        } else {
            y - 1
        };
        if x != i && y != i {
            assert(s[x] == r[a] && s[y] == r[b]);
            assert(text::str_lt(r[a].pkg, r[b].pkg));
        } else if x == i {
            assert(s[y] == r[b]);
        } else {
            assert(s[x] == r[a]);
        }
    }
}

/// The second conflicts hold the clashes on top of what the first hold.
pub open spec fn extends(from: Seq<ConflictV>, to: Seq<ConflictV>, more: Seq<Clash>) -> bool {
    forall|clashes: Seq<Clash>| #[trigger] grouped(clashes, from) ==> grouped(clashes + more, to)
}

/// No clash on top.
proof fn lemma_extends_none(r: Seq<ConflictV>)
    ensures
        extends(r, r, Seq::empty()),
{
    assert forall|clashes: Seq<Clash>| #[trigger] grouped(clashes, r) implies grouped(
        clashes + Seq::empty(),
        r,
    ) by {
        assert(clashes + Seq::empty() =~= clashes);
    }
}

/// Clashes on top of clashes.
proof fn lemma_extends(
    a: Seq<ConflictV>,
    b: Seq<ConflictV>,
    c: Seq<ConflictV>,
    x: Seq<Clash>,
    y: Seq<Clash>,
)
    requires
        extends(a, b, x),
        extends(b, c, y),
    ensures
        extends(a, c, x + y),
{
    assert forall|clashes: Seq<Clash>| #[trigger] grouped(clashes, a) implies grouped(
        clashes + (x + y),
        c,
    ) by {
        assert(grouped(clashes + x, b));
        assert(clashes + (x + y) =~= (clashes + x) + y);
    }
}

/// Adds a clash to the conflicts.
fn add_clash(conflicts: &mut Vec<Conflict>, pkg: &String, with: &String, dep: &Depend)
    ensures
        extends(
            conflict_list(old(conflicts)@),
            conflict_list(final(conflicts)@),
            seq![Clash { pkg: pkg@, with: with@, dep: dep@ }],
        ),
{
    let ghost all = conflicts@;
    let ghost r = conflict_list(all);
    let ghost c = Clash { pkg: pkg@, with: with@, dep: dep@ };
    let mut i: usize = 0;
    while i < conflicts.len() && text::str_less(conflicts[i].pkg.as_str(), pkg.as_str())
        invariant
            i <= conflicts.len(),
            conflicts@ == all,
            r == conflict_list(all),
            forall|j: int| 0 <= j < i ==> text::str_lt(#[trigger] r[j].pkg, pkg@),
        decreases conflicts.len() - i,
    {
        assert(r[i as int].pkg == all[i as int].pkg@);
        i = i + 1;
    }
    if i < conflicts.len() && conflicts[i].pkg == *pkg {
        let mut entry = conflicts.remove(i);
        entry.push(with.clone(), dep);
        conflicts.insert(i, entry);
        proof {
            assert(r[i as int] == all[i as int]@);
            assert(conflict_list(conflicts@) =~= r.update(i as int, entry@));
            assert forall|clashes: Seq<Clash>| #[trigger] grouped(clashes, r) implies grouped(
                clashes + seq![c],
                conflict_list(conflicts@),
            ) by {
                assert(clashes + seq![c] =~= clashes.push(c));
                lemma_join(clashes, r, i as int, c, entry@);
            }
        }
    } else {
        let mut entry = Conflict::new(pkg.clone());
        entry.push(with.clone(), dep);
        conflicts.insert(i, entry);
        proof {
            assert(entry@.conflicting =~= seq![shown(c.with, c.dep)]);
            assert(conflict_list(conflicts@) =~= r.insert(i as int, entry@));
            assert forall|clashes: Seq<Clash>| #[trigger] grouped(clashes, r) implies grouped(
                clashes + seq![c],
                conflict_list(conflicts@),
            ) by {
                assert(clashes + seq![c] =~= clashes.push(c));
                assert forall|j: int| i <= j < r.len() implies text::str_lt(
                    c.pkg,
                    #[trigger] r[j].pkg,
                ) by {
                    let k = i as int;
                    assert(r[k].pkg == all[k].pkg@);
                    assert(r[j].pkg == all[j].pkg@);
                    text::lemma_str_lt_total(r[k].pkg, c.pkg);
                    if j > k {
                        assert(text::str_lt(r[k].pkg, r[j].pkg));
                        text::lemma_str_lt_trans(c.pkg, r[k].pkg, r[j].pkg);
                    }
                }
                lemma_enter(clashes, r, i as int, c, entry@);
            }
        }
    }
}

/// The packages that are to be installed and built, and what libalpm answers. What is missing or up
/// to date, and which base a package is built with, has no bearing on conflicts and duplicates.
pub struct Acts<'a> {
    pub m: AlpmModel,
    pub install: Seq<RepoPackage<'a>>,
    pub build: Seq<BuildPkg<'a>>,
}

/// The package, where it is from the AUR.
pub open spec fn aur_part<'a>() -> spec_fn(BuildPkg<'a>) -> Seq<AurPackage> {
    |p: BuildPkg<'a>|
        match p {
            BuildPkg::Aur(p) => seq![p],
            BuildPkg::Pkgbuild(_, _) => Seq::empty(),
        }
}

/// The package with its srcinfo, where it is from a pkgbuild repo.
pub open spec fn pkgbuild_part<'a>() -> spec_fn(BuildPkg<'a>) -> Seq<(&'a Srcinfo, Pkgbuild<'a>)> {
    |p: BuildPkg<'a>|
        match p {
            BuildPkg::Aur(_) => Seq::empty(),
            BuildPkg::Pkgbuild(s, p) => seq![(s, p)],
        }
}

/// The repo package has the name.
pub open spec fn repo_named<'a>(name: Seq<char>) -> spec_fn(RepoPackage<'a>) -> bool {
    |p: RepoPackage<'a>| p.pkg.name@ == name
}

/// The package that is to be built has the name.
pub open spec fn build_named<'a>(name: Seq<char>) -> spec_fn(BuildPkg<'a>) -> bool {
    |p: BuildPkg<'a>| p.pkgname() == name
}

/// The repo package counts: with `runtime`, make only packages do not.
pub open spec fn repo_counts<'a>(runtime: bool) -> spec_fn(RepoPackage<'a>) -> bool {
    |p: RepoPackage<'a>| !(runtime && p.make)
}

/// The package that is to be built counts.
pub open spec fn build_counts<'a>(runtime: bool) -> spec_fn(BuildPkg<'a>) -> bool {
    |p: BuildPkg<'a>| !(runtime && p.is_make())
}

/// The repo package clashes with the package of that name.
pub open spec fn repo_clash<'a>(name: Seq<char>, dep: DependV) -> spec_fn(RepoPackage<'a>) -> Clash {
    |p: RepoPackage<'a>| Clash { pkg: p.pkg.name@, with: name, dep }
}

/// The package that is to be built clashes with the package of that name.
pub open spec fn build_clash<'a>(name: Seq<char>, dep: DependV) -> spec_fn(BuildPkg<'a>) -> Clash {
    |p: BuildPkg<'a>| Clash { pkg: p.pkgname(), with: name, dep }
}

/// The package of that name clashes with the installed package.
pub open spec fn local_clash(name: Seq<char>, dep: DependV) -> spec_fn(AlpmPkg) -> Clash {
    |p: AlpmPkg| Clash { pkg: name, with: p.name@, dep }
}

impl<'a> Acts<'a> {
    /// A package with the name is to be built or installed.
    pub open spec fn has(self, name: Seq<char>) -> bool {
        seqs::any(self.build, build_named(name)) || seqs::any(self.install, repo_named(name))
    }

    /// The installed package stays as it is.
    pub open spec fn stays(self) -> spec_fn(AlpmPkg) -> bool {
        |p: AlpmPkg| !self.has(p.name@)
    }

    /// The package that is to be built meets the dependency.
    pub open spec fn build_ok(self, p: BuildPkg<'a>, dep: DependV) -> bool {
        match p {
            BuildPkg::Aur(p) => satisfies::aur_ok(self.m, *p.pkg, dep, false),
            BuildPkg::Pkgbuild(s, p) => satisfies::srcinfo_ok(self.m, *s, *p.pkg, dep, false),
        }
    }

    /// What the package that is to be built conflicts with.
    pub open spec fn build_conflicts(self, p: BuildPkg<'a>) -> Seq<DependV> {
        match p {
            BuildPkg::Aur(p) => satisfies::parsed(self.m, text::strs(p.pkg.conflicts@)),
            BuildPkg::Pkgbuild(_, p) => satisfies::parsed(
                self.m,
                pkg::active(
                    p.pkg.conflicts@,
                    if self.m.system.architectures@.len() > 0 {
                        Some(self.m.system.architectures@[0]@)
                    } else {
                        None
                    },
                ),
            ),
        }
    }

    /// The repo package counts, is not the one of that name, and meets the conflict.
    pub open spec fn repo_hit(self, runtime: bool, name: Seq<char>, dep: DependV) -> spec_fn(
        RepoPackage<'a>,
    ) -> bool {
        |p: RepoPackage<'a>|
            repo_counts(runtime)(p) && p.pkg.name@ != name && satisfies::alpm_ok(
                self.m,
                *p.pkg,
                dep,
                false,
            )
    }

    /// The package that is to be built counts, is not the one of that name, and meets the conflict.
    pub open spec fn build_hit(self, runtime: bool, name: Seq<char>, dep: DependV) -> spec_fn(
        BuildPkg<'a>,
    ) -> bool {
        |p: BuildPkg<'a>|
            build_counts(runtime)(p) && p.pkgname() != name && self.build_ok(p, dep)
    }

    /// The installed package stays, is not the one of that name, and meets the conflict.
    pub open spec fn local_hit(self, name: Seq<char>, dep: DependV) -> spec_fn(AlpmPkg) -> bool {
        |p: AlpmPkg|
            self.stays()(p) && p.name@ != name && satisfies::alpm_ok(self.m, p, dep, false)
    }

    /// A conflict of the package of that name, held against what is to be installed and built.
    pub open spec fn reverse(self, runtime: bool, name: Seq<char>) -> spec_fn(DependV) -> Seq<Clash> {
        |dep: DependV|
            self.install.filter(self.repo_hit(runtime, name, dep)).map_values(repo_clash(name, dep))
                + self.build.filter(self.build_hit(runtime, name, dep)).map_values(
                build_clash(name, dep),
            )
    }

    /// A conflict of the package of that name, held against what is installed.
    pub open spec fn forward(self, name: Seq<char>) -> spec_fn(DependV) -> Seq<Clash> {
        |dep: DependV|
            self.m.system.localdb@.filter(self.local_hit(name, dep)).map_values(
                local_clash(name, dep),
            )
    }

    /// The conflicts of an installed package.
    pub open spec fn local_reverse(self, runtime: bool) -> spec_fn(AlpmPkg) -> Seq<Clash> {
        |p: AlpmPkg| seqs::flat(depend::deps(p.conflicts@), self.reverse(runtime, p.name@))
    }

    /// The conflicts of a repo package, held against what is to be installed and built.
    pub open spec fn repo_reverse(self, runtime: bool) -> spec_fn(RepoPackage<'a>) -> Seq<Clash> {
        |p: RepoPackage<'a>|
            seqs::flat(depend::deps(p.pkg.conflicts@), self.reverse(runtime, p.pkg.name@))
    }

    /// The conflicts of a package that is to be built, held against what is to be installed and
    /// built.
    pub open spec fn build_reverse(self, runtime: bool) -> spec_fn(BuildPkg<'a>) -> Seq<Clash> {
        |p: BuildPkg<'a>| seqs::flat(self.build_conflicts(p), self.reverse(runtime, p.pkgname()))
    }

    /// The conflicts of a repo package, held against what is installed.
    pub open spec fn repo_forward(self) -> spec_fn(RepoPackage<'a>) -> Seq<Clash> {
        |p: RepoPackage<'a>| seqs::flat(depend::deps(p.pkg.conflicts@), self.forward(p.pkg.name@))
    }

    /// The conflicts of a package that is to be built, held against what is installed.
    pub open spec fn build_forward(self) -> spec_fn(BuildPkg<'a>) -> Seq<Clash> {
        |p: BuildPkg<'a>| seqs::flat(self.build_conflicts(p), self.forward(p.pkgname()))
    }

    /// The clashes with what is installed: the conflicts of the packages that stay, then those of
    /// the packages that are to be installed and built.
    pub open spec fn clashes(self, runtime: bool) -> Seq<Clash> {
        self.reverse_clashes(runtime) + self.forward_clashes(runtime)
    }

    /// The clashes by conflicts of the packages that stay.
    pub open spec fn reverse_clashes(self, runtime: bool) -> Seq<Clash> {
        seqs::flat(self.m.system.localdb@.filter(self.stays()), self.local_reverse(runtime))
    }

    /// The clashes with the packages that stay.
    pub open spec fn forward_clashes(self, runtime: bool) -> Seq<Clash> {
        seqs::flat(self.install.filter(repo_counts(runtime)), self.repo_forward()) + seqs::flat(
            self.build.filter(build_counts(runtime)),
            self.build_forward(),
        )
    }

    /// The clashes among what is to be installed and built.
    pub open spec fn inner_clashes(self, runtime: bool) -> Seq<Clash> {
        seqs::flat(self.install.filter(repo_counts(runtime)), self.repo_reverse(runtime))
            + seqs::flat(self.build.filter(build_counts(runtime)), self.build_reverse(runtime))
    }

    /// The names of all that is to be installed and built.
    pub open spec fn names(self) -> Seq<Seq<char>> {
        self.install.map_values(|p: RepoPackage<'a>| p.pkg.name@) + self.build.map_values(
            |p: BuildPkg<'a>| p.pkgname(),
        )
    }
}

/// The names that occur before.
pub open spec fn repeated(names: Seq<Seq<char>>) -> Seq<Seq<char>>
    decreases names.len(),
{
    if names.len() == 0 {
        Seq::empty()
    } else if names.drop_last().contains(names.last()) {
        repeated(names.drop_last()).push(names.last())
    } else {
        repeated(names.drop_last())
    }
}

impl<'a, A: Alpm> Actions<'a, A> {
    /// The packages that are to be installed and built, and what libalpm answers.
    pub open spec fn acts(&self) -> Acts<'a> {
        Acts {
            m: self.alpm.model(),
            install: self.install@,
            build: seqs::flat(base::bases(self.build@), base::base_pkgs()),
        }
    }

    /// Each individual package in self.build.
    pub fn iter_build_pkgs(&self) -> (r: Vec<BuildPkg<'a>>)
        ensures
            r@ == self.acts().build,
    {
        let ghost all = base::bases(self.build@);
        let ghost f = base::base_pkgs::<'a>();
        let mut r: Vec<BuildPkg<'a>> = Vec::new();
        let mut i: usize = 0;
        proof {
            assert(all.skip(0) =~= all);
            assert(r@ + seqs::flat(all, f) =~= seqs::flat(all, f));
        }
        while i < self.build.len()
            invariant
                i <= self.build.len(),
                all == base::bases(self.build@),
                f == base::base_pkgs::<'a>(),
                r@ + seqs::flat(all.skip(i as int), f) == seqs::flat(all, f),
            decreases self.build.len() - i,
        {
            let ghost before = r@;
            let mut pkgs = self.build[i].build_pkgs();
            let ghost added = pkgs@;
            r.append(&mut pkgs);
            proof {
                assert(all.skip(i as int)[0] == self.build@[i as int]@);
                assert(all.skip(i as int).drop_first() =~= all.skip(i + 1));
                assert(before + seqs::flat(all.skip(i as int), f) =~= r@ + seqs::flat(
                    all.skip(i + 1),
                    f,
                ));
            }
            i = i + 1;
        }
        proof {
            assert(r@ + seqs::flat(all.skip(i as int), f) =~= r@);
        }
        r
    }

    /// Each individual AUR package in self.build.
    pub fn iter_aur_pkgs(&self) -> (r: Vec<AurPackage>)
        ensures
            r@ == seqs::flat(self.acts().build, aur_part()),
    {
        let build = self.iter_build_pkgs();
        let ghost f = aur_part::<'a>();
        let mut r: Vec<AurPackage> = Vec::new();
        let mut i: usize = 0;
        while i < build.len()
            invariant
                i <= build.len(),
                build@ == self.acts().build,
                f == aur_part::<'a>(),
                r@ == seqs::flat(build@.take(i as int), f),
            decreases build.len() - i,
        {
            let ghost before = r@;
            if let BuildPkg::Aur(p) = &build[i] {
                r.push(Package { pkg: p.pkg.clone(), make: p.make, target: p.target });
            }
            proof {
                assert(build@.take(i + 1) =~= build@.take(i as int).push(build@[i as int]));
                seqs::lemma_flat_push(build@.take(i as int), f, build@[i as int]);
                assert(r@ =~= before + f(build@[i as int]));
            }
            i = i + 1;
        }
        proof {
            assert(build@.take(i as int) =~= build@);
        }
        r
    }

    /// Each individual package of a pkgbuild repo in self.build, with its srcinfo.
    pub fn iter_pkgbuilds(&self) -> (r: Vec<(&'a Srcinfo, Pkgbuild<'a>)>)
        ensures
            r@ == seqs::flat(self.acts().build, pkgbuild_part()),
    {
        let build = self.iter_build_pkgs();
        let ghost f = pkgbuild_part::<'a>();
        let mut r: Vec<(&'a Srcinfo, Pkgbuild<'a>)> = Vec::new();
        let mut i: usize = 0;
        while i < build.len()
            invariant
                i <= build.len(),
                build@ == self.acts().build,
                f == pkgbuild_part::<'a>(),
                r@ == seqs::flat(build@.take(i as int), f),
            decreases build.len() - i,
        {
            let ghost before = r@;
            if let BuildPkg::Pkgbuild(s, p) = &build[i] {
                r.push((*s, Package { pkg: p.pkg, make: p.make, target: p.target }));
            }
            proof {
                assert(build@.take(i + 1) =~= build@.take(i as int).push(build@[i as int]));
                seqs::lemma_flat_push(build@.take(i as int), f, build@[i as int]);
                assert(r@ =~= before + f(build@[i as int]));
            }
            i = i + 1;
        }
        proof {
            assert(build@.take(i as int) =~= build@);
        }
        r
    }

    /// Is a package with the name to be built or installed.
    fn has_pkg(&self, build: &Vec<BuildPkg<'a>>, name: &String) -> (r: bool)
        requires
            build@ == self.acts().build,
        ensures
            r == self.acts().has(name@),
    {
        let ghost p = build_named::<'a>(name@);
        let ghost q = repo_named::<'a>(name@);
        let mut i: usize = 0;
        while i < build.len()
            invariant
                i <= build.len(),
                build@ == self.acts().build,
                p == build_named::<'a>(name@),
                forall|j: int| 0 <= j < i ==> !p(#[trigger] build@[j]),
            decreases build.len() - i,
        {
            if *build[i].name() == *name {
                assert(p(build@[i as int]));
                return true;
            }
            i = i + 1;
        }
        let mut i: usize = 0;
        while i < self.install.len()
            invariant
                i <= self.install.len(),
                q == repo_named::<'a>(name@),
                forall|j: int| 0 <= j < i ==> !q(#[trigger] self.install@[j]),
            decreases self.install.len() - i,
        {
            if self.install[i].pkg.name == *name {
                assert(q(self.install@[i as int]));
                return true;
            }
            i = i + 1;
        }
        false
    }

    /// Does the package that is to be built meet the dependency.
    fn build_satisfies(&self, p: &BuildPkg<'a>, dep: &Depend) -> (r: bool)
        requires
            self.alpm.wf(),
        ensures
            r == self.acts().build_ok(*p, dep@),
    {
        match p {
            BuildPkg::Aur(p) => p.pkg.satisfies_dep(self.alpm, dep, false),
            BuildPkg::Pkgbuild(s, p) => (*s, p.pkg).satisfies_dep(self.alpm, dep, false),
        }
    }

    /// What the package that is to be built conflicts with.
    fn conflicts_of(&self, p: &BuildPkg<'a>) -> (r: Vec<Depend>)
        requires
            self.alpm.wf(),
        ensures
            depend::deps(r@) == self.acts().build_conflicts(*p),
    {
        match p {
            BuildPkg::Aur(p) => satisfies::parse_all(self.alpm, &p.pkg.conflicts),
            BuildPkg::Pkgbuild(_, p) => {
                let archs = &self.alpm.system().architectures;
                let arch = if archs.len() > 0 {
                    Some(&archs[0])
                } else {
                    None
                };
                let values = pkg::active_values(&p.pkg.conflicts, arch);
                satisfies::parse_all(self.alpm, &values)
            },
        }
    }

    /// Checks a conflict of a package against what is to be installed and built.
    fn check_reverse_conflict(
        &self,
        build: &Vec<BuildPkg<'a>>,
        name: &String,
        runtime: bool,
        conflict: &Depend,
        conflicts: &mut Vec<Conflict>,
    )
        requires
            self.alpm.wf(),
            build@ == self.acts().build,
        ensures
            extends(
                conflict_list(old(conflicts)@),
                conflict_list(final(conflicts)@),
                self.acts().reverse(runtime, name@)(conflict@),
            ),
    {
        let ghost a = self.acts();
        let ghost start = conflict_list(conflicts@);
        let ghost p = a.repo_hit(runtime, name@, conflict@);
        let ghost f = repo_clash::<'a>(name@, conflict@);
        let mut i: usize = 0;
        proof {
            seqs::lemma_filter_none(a.install, p);
            lemma_extends_none(start);
            assert(a.install.take(0).filter(p).map_values(f) =~= Seq::empty());
        }
        while i < self.install.len()
            invariant
                self.alpm.wf(),
                a == self.acts(),
                i <= self.install.len(),
                p == a.repo_hit(runtime, name@, conflict@),
                f == repo_clash::<'a>(name@, conflict@),
                extends(
                    start,
                    conflict_list(conflicts@),
                    a.install.take(i as int).filter(p).map_values(f),
                ),
            decreases self.install.len() - i,
        {
            let pkg = &self.install[i];
            let ghost cur = conflict_list(conflicts@);
            let ghost x = a.install.take(i as int).filter(p).map_values(f);
            proof {
                seqs::lemma_filter_map_take(a.install, p, f, i as int);
            }
            if !(runtime && pkg.make) && pkg.pkg.name != *name && pkg.pkg.satisfies_dep(
                self.alpm,
                conflict,
                false,
            ) {
                add_clash(conflicts, &pkg.pkg.name, name, conflict);
                proof {
                    assert(p(a.install[i as int]));
                    let c = f(a.install[i as int]);
                    lemma_extends(start, cur, conflict_list(conflicts@), x, seq![c]);
                    assert(x + seq![c] =~= x.push(c));
                }
            } else {
                assert(!p(a.install[i as int]));
            }
            i = i + 1;
        }
        proof {
            assert(a.install.take(i as int) =~= a.install);
        }
        let ghost mid = conflict_list(conflicts@);
        let ghost x = a.install.filter(p).map_values(f);
        let ghost p = a.build_hit(runtime, name@, conflict@);
        let ghost f = build_clash::<'a>(name@, conflict@);
        let mut i: usize = 0;
        proof {
            seqs::lemma_filter_none(a.build, p);
            lemma_extends_none(mid);
            assert(a.build.take(0).filter(p).map_values(f) =~= Seq::empty());
        }
        while i < build.len()
            invariant
                self.alpm.wf(),
                a == self.acts(),
                build@ == a.build,
                i <= build.len(),
                p == a.build_hit(runtime, name@, conflict@),
                f == build_clash::<'a>(name@, conflict@),
                extends(
                    mid,
                    conflict_list(conflicts@),
                    a.build.take(i as int).filter(p).map_values(f),
                ),
            decreases build.len() - i,
        {
            let pkg = &build[i];
            let ghost cur = conflict_list(conflicts@);
            let ghost x = a.build.take(i as int).filter(p).map_values(f);
            proof {
                seqs::lemma_filter_map_take(a.build, p, f, i as int);
            }
            if !(runtime && pkg.make()) && *pkg.name() != *name && self.build_satisfies(
                pkg,
                conflict,
            ) {
                add_clash(conflicts, pkg.name(), name, conflict);
                proof {
                    assert(p(a.build[i as int]));
                    let c = f(a.build[i as int]);
                    lemma_extends(mid, cur, conflict_list(conflicts@), x, seq![c]);
                    assert(x + seq![c] =~= x.push(c));
                }
            } else {
                assert(!p(a.build[i as int]));
            }
            i = i + 1;
        }
        proof {
            assert(a.build.take(i as int) =~= a.build);
            lemma_extends(
                start,
                mid,
                conflict_list(conflicts@),
                x,
                a.build.filter(p).map_values(f),
            );
        }
    }

    /// Checks a conflict of a package that is to be installed or built against what is installed.
    fn check_forward_conflict(
        &self,
        build: &Vec<BuildPkg<'a>>,
        name: &String,
        conflict: &Depend,
        conflicts: &mut Vec<Conflict>,
    )
        requires
            self.alpm.wf(),
            build@ == self.acts().build,
        ensures
            extends(
                conflict_list(old(conflicts)@),
                conflict_list(final(conflicts)@),
                self.acts().forward(name@)(conflict@),
            ),
    {
        let ghost a = self.acts();
        let ghost start = conflict_list(conflicts@);
        let ghost p = a.local_hit(name@, conflict@);
        let ghost f = local_clash(name@, conflict@);
        let local = &self.alpm.system().localdb;
        let mut i: usize = 0;
        proof {
            seqs::lemma_filter_none(local@, p);
            lemma_extends_none(start);
            assert(local@.take(0).filter(p).map_values(f) =~= Seq::empty());
        }
        while i < local.len()
            invariant
                self.alpm.wf(),
                a == self.acts(),
                build@ == a.build,
                *local == a.m.system.localdb,
                i <= local.len(),
                p == a.local_hit(name@, conflict@),
                f == local_clash(name@, conflict@),
                extends(
                    start,
                    conflict_list(conflicts@),
                    local@.take(i as int).filter(p).map_values(f),
                ),
            decreases local.len() - i,
        {
            let pkg = &local[i];
            let ghost cur = conflict_list(conflicts@);
            let ghost x = local@.take(i as int).filter(p).map_values(f);
            proof {
                seqs::lemma_filter_map_take(local@, p, f, i as int);
            }
            if !self.has_pkg(build, &pkg.name) && pkg.name != *name && pkg.satisfies_dep(
                self.alpm,
                conflict,
                false,
            ) {
                add_clash(conflicts, name, &pkg.name, conflict);
                proof {
                    assert(p(local@[i as int]));
                    let c = f(local@[i as int]);
                    lemma_extends(start, cur, conflict_list(conflicts@), x, seq![c]);
                    assert(x + seq![c] =~= x.push(c));
                }
            } else {
                assert(!p(local@[i as int]));
            }
            i = i + 1;
        }
        proof {
            assert(local@.take(i as int) =~= local@);
        }
    }

    /// Checks the conflicts of a package against what is to be installed and built.
    fn check_reverse_list(
        &self,
        build: &Vec<BuildPkg<'a>>,
        name: &String,
        runtime: bool,
        deps: &Vec<Depend>,
        conflicts: &mut Vec<Conflict>,
    )
        requires
            self.alpm.wf(),
            build@ == self.acts().build,
        ensures
            extends(
                conflict_list(old(conflicts)@),
                conflict_list(final(conflicts)@),
                seqs::flat(depend::deps(deps@), self.acts().reverse(runtime, name@)),
            ),
    {
        let ghost start = conflict_list(conflicts@);
        let ghost f = self.acts().reverse(runtime, name@);
        let ghost all = depend::deps(deps@);
        let mut i: usize = 0;
        proof {
            lemma_extends_none(start);
        }
        while i < deps.len()
            invariant
                self.alpm.wf(),
                build@ == self.acts().build,
                i <= deps.len(),
                all == depend::deps(deps@),
                f == self.acts().reverse(runtime, name@),
                extends(start, conflict_list(conflicts@), seqs::flat(all.take(i as int), f)),
            decreases deps.len() - i,
        {
            let ghost cur = conflict_list(conflicts@);
            self.check_reverse_conflict(build, name, runtime, &deps[i], conflicts);
            proof {
                assert(all.take(i + 1) =~= all.take(i as int).push(all[i as int]));
                seqs::lemma_flat_push(all.take(i as int), f, all[i as int]);
                lemma_extends(
                    start,
                    cur,
                    conflict_list(conflicts@),
                    seqs::flat(all.take(i as int), f),
                    f(all[i as int]),
                );
            }
            i = i + 1;
        }
        proof {
            assert(all.take(i as int) =~= all);
        }
    }

    /// Checks the conflicts of a package that is to be installed or built against what is
    /// installed.
    fn check_forward_list(
        &self,
        build: &Vec<BuildPkg<'a>>,
        name: &String,
        deps: &Vec<Depend>,
        conflicts: &mut Vec<Conflict>,
    )
        requires
            self.alpm.wf(),
            build@ == self.acts().build,
        ensures
            extends(
                conflict_list(old(conflicts)@),
                conflict_list(final(conflicts)@),
                seqs::flat(depend::deps(deps@), self.acts().forward(name@)),
            ),
    {
        let ghost start = conflict_list(conflicts@);
        let ghost f = self.acts().forward(name@);
        let ghost all = depend::deps(deps@);
        let mut i: usize = 0;
        proof {
            lemma_extends_none(start);
        }
        while i < deps.len()
            invariant
                self.alpm.wf(),
                build@ == self.acts().build,
                i <= deps.len(),
                all == depend::deps(deps@),
                f == self.acts().forward(name@),
                extends(start, conflict_list(conflicts@), seqs::flat(all.take(i as int), f)),
            decreases deps.len() - i,
        {
            let ghost cur = conflict_list(conflicts@);
            self.check_forward_conflict(build, name, &deps[i], conflicts);
            proof {
                assert(all.take(i + 1) =~= all.take(i as int).push(all[i as int]));
                seqs::lemma_flat_push(all.take(i as int), f, all[i as int]);
                lemma_extends(
                    start,
                    cur,
                    conflict_list(conflicts@),
                    seqs::flat(all.take(i as int), f),
                    f(all[i as int]),
                );
            }
            i = i + 1;
        }
        proof {
            assert(all.take(i as int) =~= all);
        }
    }

    /// Checks the conflicts of the packages that stay against what is to be installed and built.
    fn check_reverse_conflicts(
        &self,
        build: &Vec<BuildPkg<'a>>,
        runtime: bool,
        conflicts: &mut Vec<Conflict>,
    )
        requires
            self.alpm.wf(),
            build@ == self.acts().build,
        ensures
            extends(
                conflict_list(old(conflicts)@),
                conflict_list(final(conflicts)@),
                self.acts().reverse_clashes(runtime),
            ),
    {
        let ghost a = self.acts();
        let ghost start = conflict_list(conflicts@);
        let ghost p = a.stays();
        let ghost f = a.local_reverse(runtime);
        let local = &self.alpm.system().localdb;
        let mut i: usize = 0;
        proof {
            seqs::lemma_filter_none(local@, p);
            lemma_extends_none(start);
        }
        while i < local.len()
            invariant
                self.alpm.wf(),
                a == self.acts(),
                build@ == a.build,
                *local == a.m.system.localdb,
                i <= local.len(),
                p == a.stays(),
                f == a.local_reverse(runtime),
                extends(
                    start,
                    conflict_list(conflicts@),
                    seqs::flat(local@.take(i as int).filter(p), f),
                ),
            decreases local.len() - i,
        {
            let pkg = &local[i];
            let ghost cur = conflict_list(conflicts@);
            let ghost before = local@.take(i as int).filter(p);
            proof {
                seqs::lemma_filter_take(local@, p, i as int);
            }
            if !self.has_pkg(build, &pkg.name) {
                self.check_reverse_list(build, &pkg.name, runtime, &pkg.conflicts, conflicts);
                proof {
                    assert(p(local@[i as int]));
                    seqs::lemma_flat_push(before, f, local@[i as int]);
                    lemma_extends(
                        start,
                        cur,
                        conflict_list(conflicts@),
                        seqs::flat(before, f),
                        f(local@[i as int]),
                    );
                }
            } else {
                assert(!p(local@[i as int]));
            }
            i = i + 1;
        }
        proof {
            assert(local@.take(i as int) =~= local@);
        }
    }

    /// Checks the conflicts of what is to be installed and built against what is installed.
    fn check_forward_conflicts(
        &self,
        build: &Vec<BuildPkg<'a>>,
        runtime: bool,
        conflicts: &mut Vec<Conflict>,
    )
        requires
            self.alpm.wf(),
            build@ == self.acts().build,
        ensures
            extends(
                conflict_list(old(conflicts)@),
                conflict_list(final(conflicts)@),
                self.acts().forward_clashes(runtime),
            ),
    {
        let ghost a = self.acts();
        let ghost start = conflict_list(conflicts@);
        let ghost p = repo_counts::<'a>(runtime);
        let ghost f = a.repo_forward();
        let mut i: usize = 0;
        proof {
            seqs::lemma_filter_none(a.install, p);
            lemma_extends_none(start);
        }
        while i < self.install.len()
            invariant
                self.alpm.wf(),
                a == self.acts(),
                build@ == a.build,
                i <= self.install.len(),
                p == repo_counts::<'a>(runtime),
                f == a.repo_forward(),
                extends(
                    start,
                    conflict_list(conflicts@),
                    seqs::flat(a.install.take(i as int).filter(p), f),
                ),
            decreases self.install.len() - i,
        {
            let pkg = &self.install[i];
            let ghost cur = conflict_list(conflicts@);
            let ghost before = a.install.take(i as int).filter(p);
            proof {
                seqs::lemma_filter_take(a.install, p, i as int);
            }
            if !(runtime && pkg.make) {
                self.check_forward_list(build, &pkg.pkg.name, &pkg.pkg.conflicts, conflicts);
                proof {
                    assert(p(a.install[i as int]));
                    seqs::lemma_flat_push(before, f, a.install[i as int]);
                    lemma_extends(
                        start,
                        cur,
                        conflict_list(conflicts@),
                        seqs::flat(before, f),
                        f(a.install[i as int]),
                    );
                }
            } else {
                assert(!p(a.install[i as int]));
            }
            i = i + 1;
        }
        proof {
            assert(a.install.take(i as int) =~= a.install);
        }
        let ghost x = seqs::flat(a.install.filter(p), f);
        let ghost mid = conflict_list(conflicts@);
        let ghost p = build_counts::<'a>(runtime);
        let ghost f = a.build_forward();
        let mut i: usize = 0;
        proof {
            seqs::lemma_filter_none(a.build, p);
            lemma_extends_none(mid);
        }
        while i < build.len()
            invariant
                self.alpm.wf(),
                a == self.acts(),
                build@ == a.build,
                i <= build.len(),
                p == build_counts::<'a>(runtime),
                f == a.build_forward(),
                extends(
                    mid,
                    conflict_list(conflicts@),
                    seqs::flat(a.build.take(i as int).filter(p), f),
                ),
            decreases build.len() - i,
        {
            let pkg = &build[i];
            let ghost cur = conflict_list(conflicts@);
            let ghost before = a.build.take(i as int).filter(p);
            proof {
                seqs::lemma_filter_take(a.build, p, i as int);
            }
            if !(runtime && pkg.make()) {
                let deps = self.conflicts_of(pkg);
                self.check_forward_list(build, pkg.name(), &deps, conflicts);
                proof {
                    assert(p(a.build[i as int]));
                    seqs::lemma_flat_push(before, f, a.build[i as int]);
                    lemma_extends(
                        mid,
                        cur,
                        conflict_list(conflicts@),
                        seqs::flat(before, f),
                        f(a.build[i as int]),
                    );
                }
            } else {
                assert(!p(a.build[i as int]));
            }
            i = i + 1;
        }
        proof {
            assert(a.build.take(i as int) =~= a.build);
            lemma_extends(
                start,
                mid,
                conflict_list(conflicts@),
                x,
                seqs::flat(a.build.filter(p), f),
            );
        }
    }

    /// Checks the conflicts of what is to be installed and built against one another.
    fn check_inner_conflicts(
        &self,
        build: &Vec<BuildPkg<'a>>,
        runtime: bool,
        conflicts: &mut Vec<Conflict>,
    )
        requires
            self.alpm.wf(),
            build@ == self.acts().build,
        ensures
            extends(
                conflict_list(old(conflicts)@),
                conflict_list(final(conflicts)@),
                self.acts().inner_clashes(runtime),
            ),
    {
        let ghost a = self.acts();
        let ghost start = conflict_list(conflicts@);
        let ghost p = repo_counts::<'a>(runtime);
        let ghost f = a.repo_reverse(runtime);
        let mut i: usize = 0;
        proof {
            seqs::lemma_filter_none(a.install, p);
            lemma_extends_none(start);
        }
        while i < self.install.len()
            invariant
                self.alpm.wf(),
                a == self.acts(),
                build@ == a.build,
                i <= self.install.len(),
                p == repo_counts::<'a>(runtime),
                f == a.repo_reverse(runtime),
                extends(
                    start,
                    conflict_list(conflicts@),
                    seqs::flat(a.install.take(i as int).filter(p), f),
                ),
            decreases self.install.len() - i,
        {
            let pkg = &self.install[i];
            let ghost cur = conflict_list(conflicts@);
            let ghost before = a.install.take(i as int).filter(p);
            proof {
                seqs::lemma_filter_take(a.install, p, i as int);
            }
            if !(runtime && pkg.make) {
                self.check_reverse_list(
                    build,
                    &pkg.pkg.name,
                    runtime,
                    &pkg.pkg.conflicts,
                    conflicts,
                );
                proof {
                    assert(p(a.install[i as int]));
                    seqs::lemma_flat_push(before, f, a.install[i as int]);
                    lemma_extends(
                        start,
                        cur,
                        conflict_list(conflicts@),
                        seqs::flat(before, f),
                        f(a.install[i as int]),
                    );
                }
            } else {
                assert(!p(a.install[i as int]));
            }
            i = i + 1;
        }
        proof {
            assert(a.install.take(i as int) =~= a.install);
        }
        let ghost x = seqs::flat(a.install.filter(p), f);
        let ghost mid = conflict_list(conflicts@);
        let ghost p = build_counts::<'a>(runtime);
        let ghost f = a.build_reverse(runtime);
        let mut i: usize = 0;
        proof {
            seqs::lemma_filter_none(a.build, p);
            lemma_extends_none(mid);
        }
        while i < build.len()
            invariant
                self.alpm.wf(),
                a == self.acts(),
                build@ == a.build,
                i <= build.len(),
                p == build_counts::<'a>(runtime),
                f == a.build_reverse(runtime),
                extends(
                    mid,
                    conflict_list(conflicts@),
                    seqs::flat(a.build.take(i as int).filter(p), f),
                ),
            decreases build.len() - i,
        {
            let pkg = &build[i];
            let ghost cur = conflict_list(conflicts@);
            let ghost before = a.build.take(i as int).filter(p);
            proof {
                seqs::lemma_filter_take(a.build, p, i as int);
            }
            if !(runtime && pkg.make()) {
                let deps = self.conflicts_of(pkg);
                self.check_reverse_list(build, pkg.name(), runtime, &deps, conflicts);
                proof {
                    assert(p(a.build[i as int]));
                    seqs::lemma_flat_push(before, f, a.build[i as int]);
                    lemma_extends(
                        mid,
                        cur,
                        conflict_list(conflicts@),
                        seqs::flat(before, f),
                        f(a.build[i as int]),
                    );
                }
            } else {
                assert(!p(a.build[i as int]));
            }
            i = i + 1;
        }
        proof {
            assert(a.build.take(i as int) =~= a.build);
            lemma_extends(
                start,
                mid,
                conflict_list(conflicts@),
                x,
                seqs::flat(a.build.filter(p), f),
            );
        }
    }

    /// Calculate conflicts. Do note that even with conflicts it can still be possible to continue
    /// and install the packages. Although that is not checked here.
    ///
    /// For example installing pacman-git will conflict with pacman. But the install will still
    /// succeed as long as the user hits yes to pacman's prompt to remove pacman.
    ///
    /// However other cases are more complex and can not be automatically resolved. So it is up to
    /// the user to decide how to handle these.
    ///
    /// makedeps: if true, include make dependencies in the conflict calculation.
    pub fn calculate_conflicts(&self, makedeps: bool) -> (r: Vec<Conflict>)
        requires
            self.alpm.wf(),
        ensures
            grouped(self.acts().clashes(!makedeps), conflict_list(r@)),
            forall|pkg: Seq<char>, w: ConflictingV| #[trigger]
                inner::reported(conflict_list(r@), pkg, w) <==> meaning::conflicts_with_installed(
                    self.acts(),
                    makedeps,
                    pkg,
                    w,
                ),
    {
        let build = self.iter_build_pkgs();
        let mut conflicts: Vec<Conflict> = Vec::new();
        let ghost start = conflict_list(conflicts@);
        proof {
            assert(start =~= Seq::empty());
            assert(grouped(Seq::empty(), start));
        }
        self.check_reverse_conflicts(&build, !makedeps, &mut conflicts);
        let ghost mid = conflict_list(conflicts@);
        self.check_forward_conflicts(&build, !makedeps, &mut conflicts);
        proof {
            let all = self.acts().clashes(!makedeps);
            lemma_extends(
                start,
                mid,
                conflict_list(conflicts@),
                self.acts().reverse_clashes(!makedeps),
                self.acts().forward_clashes(!makedeps),
            );
            assert(Seq::<Clash>::empty() + all =~= all);
            assert forall|pkg: Seq<char>, w: ConflictingV| #[trigger]
                inner::reported(conflict_list(conflicts@), pkg, w)
                    == meaning::conflicts_with_installed(self.acts(), makedeps, pkg, w) by {
                meaning::law_conflicts(
                    self.acts(),
                    makedeps,
                    conflict_list(conflicts@),
                    pkg,
                    w,
                );
            }
        }
        conflicts
    }

    /// Calculate inner conflicts. Do note that even with conflicts it can still be possible to
    /// continue and install the packages. Although that is not checked here.
    ///
    /// For example installing pacman-git will conflict with pacman. But the install will still
    /// succeed as long as the user hits yes to pacman's prompt to remove pacman.
    ///
    /// However other cases are more complex and can not be automatically resolved. So it is up to
    /// the user to decide how to handle these.
    ///
    /// makedeps: if true, include make dependencies in the conflict calculation.
    pub fn calculate_inner_conflicts(&self, makedeps: bool) -> (r: Vec<Conflict>)
        requires
            self.alpm.wf(),
        ensures
            grouped(self.acts().inner_clashes(!makedeps), conflict_list(r@)),
            forall|pkg: Seq<char>, w: ConflictingV| #[trigger]
                inner::reported(conflict_list(r@), pkg, w) <==> meaning::conflicts_inside(
                    self.acts(),
                    makedeps,
                    pkg,
                    w,
                ),
    {
        let build = self.iter_build_pkgs();
        let mut conflicts: Vec<Conflict> = Vec::new();
        let ghost start = conflict_list(conflicts@);
        proof {
            assert(start =~= Seq::empty());
            assert(grouped(Seq::empty(), start));
        }
        self.check_inner_conflicts(&build, !makedeps, &mut conflicts);
        proof {
            let all = self.acts().inner_clashes(!makedeps);
            assert(Seq::<Clash>::empty() + all =~= all);
            assert forall|pkg: Seq<char>, w: ConflictingV| #[trigger]
                inner::reported(conflict_list(conflicts@), pkg, w) == meaning::conflicts_inside(
                    self.acts(),
                    makedeps,
                    pkg,
                    w,
                ) by {
                meaning::law_inside(self.acts(), makedeps, conflict_list(conflicts@), pkg, w);
            }
        }
        conflicts
    }

    /// Find duplicate targets. It is possible to have duplicate targets if packages with the same
    /// name exist across repos.
    pub fn duplicate_targets(&self) -> (r: Vec<String>)
        ensures
            text::strs(r@) == repeated(self.acts().names()),
    {
        let build = self.iter_build_pkgs();
        let ghost all = self.acts().names();
        let mut names = StringHashSet::new();
        let mut r: Vec<String> = Vec::new();
        let mut i: usize = 0;
        proof {
            assert(text::strs(r@) =~= repeated(all.take(0)));
            assert(names@ =~= all.take(0).to_set());
        }
        while i < self.install.len()
            invariant
                i <= self.install.len(),
                all == self.acts().names(),
                names@ == all.take(i as int).to_set(),
                text::strs(r@) == repeated(all.take(i as int)),
            decreases self.install.len() - i,
        {
            let name = &self.install[i].pkg.name;
            proof {
                assert(all[i as int] == name@);
                lemma_repeated(all, i as int);
            }
            let ghost before = r@;
            if !names.insert(name.clone()) {
                r.push(name.clone());
                proof {
                    assert(text::strs(r@) =~= text::strs(before).push(name@));
                }
            }
            i = i + 1;
        }
        let n = self.install.len();
        let mut k: usize = 0;
        while k < build.len()
            invariant
                n == self.install.len(),
                k <= build.len(),
                build@ == self.acts().build,
                all == self.acts().names(),
                names@ == all.take(n + k).to_set(),
                text::strs(r@) == repeated(all.take(n + k)),
            decreases build.len() - k,
        {
            let name = build[k].name();
            proof {
                assert(all[n + k] == name@);
                lemma_repeated(all, n + k);
            }
            let ghost before = r@;
            if !names.insert(name.clone()) {
                r.push(name.clone());
                proof {
                    assert(text::strs(r@) =~= text::strs(before).push(name@));
                }
            }
            k = k + 1;
        }
        proof {
            assert(all.take(n + k) =~= all);
        }
        r
    }
}

/// One name more.
proof fn lemma_repeated(names: Seq<Seq<char>>, i: int)
    requires
        0 <= i < names.len(),
    ensures
        names.take(i + 1).to_set() == names.take(i).to_set().insert(names[i]),
        repeated(names.take(i + 1)) == (if names.take(i).to_set().contains(names[i]) {
            repeated(names.take(i)).push(names[i])
        } else {
            repeated(names.take(i))
        }),
{
    let s = names.take(i);
    let t = names.take(i + 1);
    assert(t.drop_last() =~= s);
    assert(t.last() == names[i]);
    assert forall|x: Seq<char>| t.contains(x) <==> s.contains(x) || x == names[i] by {
        if s.contains(x) {
            let k = choose|k: int| 0 <= k < s.len() && s[k] == x;
            assert(t[k] == x);
        }
        assert(t[i] == names[i]);
        if t.contains(x) && x != names[i] {
            let k = choose|k: int| 0 <= k < t.len() && t[k] == x;
            assert(s[k] == x);
        }
    }
    assert(t.to_set() =~= s.to_set().insert(names[i]));
}

/// What is in one of two sequences.
proof fn lemma_contains_sum<T>(a: Seq<T>, b: Seq<T>, x: T)
    ensures
        (a + b).contains(x) <==> a.contains(x) || b.contains(x),
{
    if (a + b).contains(x) {
        let i = choose|i: int| 0 <= i < (a + b).len() && (a + b)[i] == x;
        if i < a.len() {
            assert(a[i] == x);
        } else {
            assert(b[i - a.len()] == x);
        }
    }
    if a.contains(x) {
        let i = choose|i: int| 0 <= i < a.len() && a[i] == x;
        assert((a + b)[i] == x);
    }
    if b.contains(x) {
        let i = choose|i: int| 0 <= i < b.len() && b[i] == x;
        assert((a + b)[a.len() + i] == x);
    }
}

/// What comes of filtering and mapping.
proof fn lemma_contains_map<T, U>(s: Seq<T>, p: spec_fn(T) -> bool, f: spec_fn(T) -> U, x: U)
    ensures
        s.filter(p).map_values(f).contains(x) <==> exists|y: T| #[trigger]
            s.contains(y) && p(y) && f(y) == x,
{
    let t = s.filter(p);
    let m = t.map_values(f);
    if m.contains(x) {
        let i = choose|i: int| 0 <= i < m.len() && m[i] == x;
        seqs::lemma_filter_contains(s, p, t[i]);
        assert(t.contains(t[i]));
    }
    if exists|y: T| #[trigger] s.contains(y) && p(y) && f(y) == x {
        let y = choose|y: T| #[trigger] s.contains(y) && p(y) && f(y) == x;
        seqs::lemma_filter_contains(s, p, y);
        let i = choose|i: int| 0 <= i < t.len() && t[i] == y;
        assert(m[i] == x);
    }
}

/// A clash by a conflict of a package.
proof fn lemma_reverse<'a>(a: Acts<'a>, runtime: bool, name: Seq<char>, dep: DependV, c: Clash)
    requires
        a.reverse(runtime, name)(dep).contains(c),
    ensures
        c.pkg != c.with,
        a.reverse(false, name)(dep).contains(c),
{
    let x = a.install.filter(a.repo_hit(runtime, name, dep)).map_values(repo_clash(name, dep));
    let y = a.build.filter(a.build_hit(runtime, name, dep)).map_values(build_clash(name, dep));
    let u = a.install.filter(a.repo_hit(false, name, dep)).map_values(repo_clash(name, dep));
    let v = a.build.filter(a.build_hit(false, name, dep)).map_values(build_clash(name, dep));
    lemma_contains_sum(x, y, c);
    lemma_contains_sum(u, v, c);
    lemma_contains_map(a.install, a.repo_hit(runtime, name, dep), repo_clash(name, dep), c);
    lemma_contains_map(a.install, a.repo_hit(false, name, dep), repo_clash(name, dep), c);
    lemma_contains_map(a.build, a.build_hit(runtime, name, dep), build_clash(name, dep), c);
    lemma_contains_map(a.build, a.build_hit(false, name, dep), build_clash(name, dep), c);
    if x.contains(c) {
        let p = choose|p: RepoPackage<'a>| #[trigger]
            a.install.contains(p) && a.repo_hit(runtime, name, dep)(p) && repo_clash(name, dep)(p)
                == c;
        assert(a.repo_hit(false, name, dep)(p));
    } else {
        let p = choose|p: BuildPkg<'a>| #[trigger]
            a.build.contains(p) && a.build_hit(runtime, name, dep)(p) && build_clash(name, dep)(p)
                == c;
        assert(a.build_hit(false, name, dep)(p));
    }
}

/// Clashes by the conflicts of a package.
proof fn lemma_reverse_list<'a>(
    a: Acts<'a>,
    runtime: bool,
    name: Seq<char>,
    deps: Seq<DependV>,
    c: Clash,
)
    requires
        seqs::flat(deps, a.reverse(runtime, name)).contains(c),
    ensures
        c.pkg != c.with,
        seqs::flat(deps, a.reverse(false, name)).contains(c),
{
    let i = seqs::lemma_flat_from(deps, a.reverse(runtime, name), c);
    lemma_reverse(a, runtime, name, deps[i], c);
    seqs::lemma_flat(deps, a.reverse(false, name), i, c);
}

/// Clashes of a package with what is installed.
proof fn lemma_forward_list<'a>(a: Acts<'a>, name: Seq<char>, deps: Seq<DependV>, c: Clash)
    requires
        seqs::flat(deps, a.forward(name)).contains(c),
    ensures
        c.pkg != c.with,
{
    let i = seqs::lemma_flat_from(deps, a.forward(name), c);
    let local = a.m.system.localdb@;
    lemma_contains_map(local, a.local_hit(name, deps[i]), local_clash(name, deps[i]), c);
    let p = choose|p: AlpmPkg| #[trigger]
        local.contains(p) && a.local_hit(name, deps[i])(p) && local_clash(name, deps[i])(p) == c;
    assert(a.local_hit(name, deps[i])(p));
}

/// The packages that count with `runtime` count without.
proof fn lemma_counts<T>(s: Seq<T>, p: spec_fn(T) -> bool, q: spec_fn(T) -> bool, i: int) -> (j: int)
    requires
        0 <= i < s.filter(p).len(),
        forall|x: T| #[trigger] p(x) ==> q(x),
    ensures
        0 <= j < s.filter(q).len(),
        s.filter(q)[j] == s.filter(p)[i],
        p(s.filter(p)[i]),
{
    let x = s.filter(p)[i];
    seqs::lemma_filter_contains(s, p, x);
    seqs::lemma_filter_contains(s, q, x);
    assert(s.filter(p).contains(x));
    choose|j: int| 0 <= j < s.filter(q).len() && s.filter(q)[j] == x
}

/// No package clashes with itself, and a clash that counts without make only packages counts with
/// them.
pub proof fn law_clash<'a>(a: Acts<'a>, runtime: bool, c: Clash)
    ensures
        a.clashes(runtime).contains(c) ==> c.pkg != c.with && a.clashes(false).contains(c),
        a.inner_clashes(runtime).contains(c) ==> c.pkg != c.with && a.inner_clashes(
            false,
        ).contains(c),
{
    let local = a.m.system.localdb@.filter(a.stays());
    let repo = a.install.filter(repo_counts(runtime));
    let build = a.build.filter(build_counts(runtime));
    let all_repo = a.install.filter(repo_counts(false));
    let all_build = a.build.filter(build_counts(false));
    if a.clashes(runtime).contains(c) {
        lemma_contains_sum(a.reverse_clashes(runtime), a.forward_clashes(runtime), c);
        lemma_contains_sum(a.reverse_clashes(false), a.forward_clashes(false), c);
        if a.reverse_clashes(runtime).contains(c) {
            let i = seqs::lemma_flat_from(local, a.local_reverse(runtime), c);
            let p = local[i];
            lemma_reverse_list(a, runtime, p.name@, depend::deps(p.conflicts@), c);
            seqs::lemma_flat(local, a.local_reverse(false), i, c);
        } else {
            let x = seqs::flat(repo, a.repo_forward());
            let y = seqs::flat(build, a.build_forward());
            lemma_contains_sum(x, y, c);
            lemma_contains_sum(
                seqs::flat(all_repo, a.repo_forward()),
                seqs::flat(all_build, a.build_forward()),
                c,
            );
            if x.contains(c) {
                let i = seqs::lemma_flat_from(repo, a.repo_forward(), c);
                let j = lemma_counts(a.install, repo_counts(runtime), repo_counts(false), i);
                lemma_forward_list(a, repo[i].pkg.name@, depend::deps(repo[i].pkg.conflicts@), c);
                seqs::lemma_flat(all_repo, a.repo_forward(), j, c);
            } else {
                let i = seqs::lemma_flat_from(build, a.build_forward(), c);
                let j = lemma_counts(a.build, build_counts(runtime), build_counts(false), i);
                lemma_forward_list(a, build[i].pkgname(), a.build_conflicts(build[i]), c);
                seqs::lemma_flat(all_build, a.build_forward(), j, c);
            }
        }
    }
    if a.inner_clashes(runtime).contains(c) {
        let x = seqs::flat(repo, a.repo_reverse(runtime));
        let y = seqs::flat(build, a.build_reverse(runtime));
        lemma_contains_sum(x, y, c);
        lemma_contains_sum(
            seqs::flat(all_repo, a.repo_reverse(false)),
            seqs::flat(all_build, a.build_reverse(false)),
            c,
        );
        if x.contains(c) {
            let i = seqs::lemma_flat_from(repo, a.repo_reverse(runtime), c);
            let j = lemma_counts(a.install, repo_counts(runtime), repo_counts(false), i);
            lemma_reverse_list(
                a,
                runtime,
                repo[i].pkg.name@,
                depend::deps(repo[i].pkg.conflicts@),
                c,
            );
            seqs::lemma_flat(all_repo, a.repo_reverse(false), j, c);
        } else {
            let i = seqs::lemma_flat_from(build, a.build_reverse(runtime), c);
            let j = lemma_counts(a.build, build_counts(runtime), build_counts(false), i);
            lemma_reverse_list(a, runtime, build[i].pkgname(), a.build_conflicts(build[i]), c);
            seqs::lemma_flat(all_build, a.build_reverse(false), j, c);
        }
    }
}

/// In the conflicts that are reported no package conflicts with itself.
pub proof fn law_no_self_conflict<'a>(
    a: Acts<'a>,
    runtime: bool,
    r: Seq<ConflictV>,
    i: int,
    k: int,
)
    requires
        grouped(a.clashes(runtime), r) || grouped(a.inner_clashes(runtime), r),
        0 <= i < r.len(),
        0 <= k < r[i].conflicting.len(),
    ensures
        r[i].conflicting[k].pkg != r[i].pkg,
{
    let clashes = if grouped(a.clashes(runtime), r) {
        a.clashes(runtime)
    } else {
        a.inner_clashes(runtime)
    };
    let own = clashes.filter(about(r[i].pkg));
    let c = own[k];
    assert(own.contains(c));
    seqs::lemma_filter_contains(clashes, about(r[i].pkg), c);
    law_clash(a, runtime, c);
    assert(own.map_values(clash_shown())[k] == shown(c.with, c.dep));
}

/// There are duplicates where, and only where, two packages have the same name.
pub proof fn law_duplicates(names: Seq<Seq<char>>)
    ensures
        repeated(names).len() == 0 <==> names.no_duplicates(),
    decreases names.len(),
{
    if names.len() > 0 {
        let s = names.drop_last();
        law_duplicates(s);
        if names.no_duplicates() {
            assert(s.no_duplicates()) by {
                assert forall|i: int, j: int| 0 <= i < s.len() && 0 <= j < s.len() && i != j implies
                    s[i] != s[j] by {
                    assert(names[i] != names[j]);
                }
            }
            if s.contains(names.last()) {
                let i = choose|i: int| 0 <= i < s.len() && s[i] == names.last();
                assert(names[i] == names[names.len() - 1]);
            }
        }
        if repeated(names).len() == 0 {
            assert(!s.contains(names.last()));
            assert forall|i: int, j: int|
                0 <= i < names.len() && 0 <= j < names.len() && i != j implies names[i]
                != names[j] by {
                if i == names.len() - 1 {
                    assert(s[j] == names[j]);
                } else if j == names.len() - 1 {
                    assert(s[i] == names[i]);
                } else {
                    assert(s[i] != s[j]);
                }
            }
        }
    }
}

} // verus!
