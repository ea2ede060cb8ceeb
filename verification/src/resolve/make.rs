//! Telling make dependencies from runtime dependencies.
use vstd::prelude::*;
use crate::alpm::{Alpm, AlpmPkg};
use crate::base::{AurPackage, Base, BaseV, Package, Pkgbuild, RepoPackage};
use crate::cb::Group;
use crate::depend;
use crate::depend::{Depend, DependV};
use crate::model::{Env, St};
use crate::pkg;
use crate::resolve::Resolver;
use crate::satisfies;
use crate::satisfies::Satisfies;
use crate::text;

pub mod runtime;

verus! {

/// The place of a package among the actions.
pub enum Pos {
    /// A package that is to be installed.
    Install(int),
    /// A base that is to be built and a package of it.
    Build(int, int),
}

impl<'a> Env<'a> {
    /// The first architecture.
    pub open spec fn first_arch(self) -> Option<Seq<char>> {
        if self.m.system.architectures@.len() > 0 {
            Some(self.m.system.architectures@[0]@)
        } else {
            None
        }
    }
}

impl<'a> St<'a> {
    /// There is a package at the place.
    pub open spec fn valid(self, pos: Pos) -> bool {
        match pos {
            Pos::Install(i) => 0 <= i < self.install.len(),
            Pos::Build(b, k) => 0 <= b < self.build.len() && 0 <= k < self.build[b].makes().len(),
        }
    }

    /// The package at the place is make only.
    pub open spec fn is_make(self, pos: Pos) -> bool {
        match pos {
            Pos::Install(i) => self.install[i].make,
            Pos::Build(b, k) => self.build[b].makes()[k],
        }
    }

    /// The actions with other packages make only: those for which `f` holds.
    pub open spec fn with_makes(self, f: spec_fn(Pos) -> bool) -> St<'a> {
        St {
            install: Seq::new(
                self.install.len(),
                |i: int| Package { make: f(Pos::Install(i)), ..self.install[i] },
            ),
            build: Seq::new(
                self.build.len(),
                |b: int| base_with_makes(self.build[b], |k: int| f(Pos::Build(b, k))),
            ),
            ..self
        }
    }

    /// What the package at the place needs at runtime.
    pub open spec fn run_deps(self, env: Env<'a>, pos: Pos) -> Seq<DependV> {
        match pos {
            Pos::Install(i) => depend::deps(self.install[i].pkg.depends@),
            Pos::Build(b, k) => match self.build[b] {
                BaseV::Aur { pkgs, .. } => satisfies::parsed(
                    env.m,
                    text::strs(pkgs[k].pkg.depends@),
                ),
                BaseV::Pkgbuild { pkgs, .. } => satisfies::parsed(
                    env.m,
                    pkg::active(pkgs[k].pkg.depends@, env.first_arch()),
                ),
            },
        }
    }

    /// The package at the place meets the dependency.
    pub open spec fn meets(self, env: Env<'a>, pos: Pos, dep: DependV) -> bool {
        match pos {
            Pos::Install(i) => satisfies::alpm_ok(env.m, *self.install[i].pkg, dep, env.nover()),
            Pos::Build(b, k) => match self.build[b] {
                BaseV::Aur { pkgs, .. } => satisfies::aur_ok(env.m, *pkgs[k].pkg, dep, env.nover()),
                BaseV::Pkgbuild { srcinfo, pkgs, .. } => satisfies::srcinfo_ok(
                    env.m,
                    *srcinfo,
                    *pkgs[k].pkg,
                    dep,
                    env.nover(),
                ),
            },
        }
    }

    /// The package at the first place needs the one at the second at runtime.
    pub open spec fn runs_on(self, env: Env<'a>, from: Pos, to: Pos) -> bool {
        exists|j: int|
            0 <= j < self.run_deps(env, from).len() && self.meets(
                env,
                to,
                #[trigger] self.run_deps(env, from)[j],
            )
    }

    /// The package at the place is needed at runtime: it is not make only, or one that is needed at
    /// runtime needs it, over at most `n` steps.
    pub open spec fn reach(self, env: Env<'a>, n: nat, pos: Pos) -> bool
        decreases n,
    {
        self.valid(pos) && (!self.is_make(pos) || (n > 0 && exists|q: Pos|
            self.reach(env, (n - 1) as nat, q) && #[trigger] self.runs_on(env, q, pos)))
    }

    /// The package at the place is needed at runtime.
    pub open spec fn runtime(self, env: Env<'a>, pos: Pos) -> bool {
        exists|n: nat| self.reach(env, n, pos)
    }

    /// The package at the place is needed for builds only.
    pub open spec fn make_only(self, env: Env<'a>) -> spec_fn(Pos) -> bool {
        |pos: Pos| !self.runtime(env, pos)
    }
}

/// The base with other packages make only.
pub open spec fn base_with_makes<'a>(base: BaseV<'a>, f: spec_fn(int) -> bool) -> BaseV<'a> {
    match base {
        BaseV::Aur { pkgs, build } => BaseV::Aur {
            pkgs: Seq::new(pkgs.len(), |k: int| Package { make: f(k), ..pkgs[k] }),
            build,
        },
        BaseV::Pkgbuild { repo, srcinfo, pkgs, build } => BaseV::Pkgbuild {
            repo,
            srcinfo,
            pkgs: Seq::new(pkgs.len(), |k: int| Package { make: f(k), ..pkgs[k] }),
            build,
        },
    }
}

/// The actions with the package at the place not make only.
pub open spec fn cleared<'a>(st: St<'a>, pos: Pos) -> St<'a> {
    match pos {
        Pos::Install(i) => St {
            install: st.install.update(i, Package { make: false, ..st.install[i] }),
            ..st
        },
        Pos::Build(b, k) => St {
            build: st.build.update(
                b,
                match st.build[b] {
                    BaseV::Aur { pkgs, build } => BaseV::Aur {
                        pkgs: pkgs.update(k, Package { make: false, ..pkgs[k] }),
                        build,
                    },
                    BaseV::Pkgbuild { repo, srcinfo, pkgs, build } => BaseV::Pkgbuild {
                        repo,
                        srcinfo,
                        pkgs: pkgs.update(k, Package { make: false, ..pkgs[k] }),
                        build,
                    },
                },
            ),
            ..st
        },
    }
}

/// The second differs from the first in what is make only, and in nothing else.
spec fn same_but_makes<'a>(st: St<'a>, cur: St<'a>) -> bool {
    &&& cur == (St { install: cur.install, build: cur.build, ..st })
    &&& cur.install.len() == st.install.len()
    &&& forall|i: int|
        0 <= i < st.install.len() ==> #[trigger] cur.install[i] == (Package {
            make: cur.install[i].make,
            ..st.install[i]
        })
    &&& cur.build.len() == st.build.len()
    &&& forall|b: int|
        0 <= b < st.build.len() ==> same_base(st.build[b], #[trigger] cur.build[b])
}

/// The second base differs from the first in what is make only, and in nothing else.
spec fn same_base<'a>(x: BaseV<'a>, y: BaseV<'a>) -> bool {
    match (x, y) {
        (BaseV::Aur { pkgs: p, build: c }, BaseV::Aur { pkgs: q, build: d }) => {
            &&& c == d
            &&& p.len() == q.len()
            &&& forall|k: int|
                0 <= k < p.len() ==> #[trigger] q[k] == (Package { make: q[k].make, ..p[k] })
        },
        (
            BaseV::Pkgbuild { repo: r, srcinfo: s, pkgs: p, build: c },
            BaseV::Pkgbuild { repo: t, srcinfo: u, pkgs: q, build: d },
        ) => {
            &&& r == t
            &&& s == u
            &&& c == d
            &&& p.len() == q.len()
            &&& forall|k: int|
                0 <= k < p.len() ==> #[trigger] q[k] == (Package { make: q[k].make, ..p[k] })
        },
        _ => false,
    }
}

/// What holds while make only packages are looked for.
spec fn inv<'a>(env: Env<'a>, st: St<'a>, cur: St<'a>, rt: Seq<DependV>) -> bool {
    &&& same_but_makes(st, cur)
    &&& forall|pos: Pos| st.valid(pos) && !cur.is_make(pos) ==> #[trigger] st.runtime(env, pos)
    &&& forall|pos: Pos| #[trigger] st.valid(pos) && !st.is_make(pos) ==> !cur.is_make(pos)
    &&& forall|pos: Pos, j: int|
        st.valid(pos) && !cur.is_make(pos) && 0 <= j < st.run_deps(env, pos).len() ==> rt.contains(
            #[trigger] st.run_deps(env, pos)[j],
        )
    &&& forall|j: int| 0 <= j < rt.len() ==> from_runtime(env, st, #[trigger] rt[j])
}

/// The dependency is one of a package that is needed at runtime.
spec fn from_runtime<'a>(env: Env<'a>, st: St<'a>, dep: DependV) -> bool {
    exists|q: Pos| st.runtime(env, q) && #[trigger] st.run_deps(env, q).contains(dep)
}

/// What is make only does not bear on the places, the dependencies and what they are met by.
proof fn lemma_same<'a>(env: Env<'a>, st: St<'a>, cur: St<'a>, pos: Pos)
    requires
        same_but_makes(st, cur),
    ensures
        cur.valid(pos) == st.valid(pos),
        st.valid(pos) ==> cur.run_deps(env, pos) == st.run_deps(env, pos),
        forall|dep: DependV|
            st.valid(pos) ==> #[trigger] cur.meets(env, pos, dep) == st.meets(env, pos, dep),
{
    match pos {
        Pos::Install(i) => {
            if st.valid(pos) {
                assert(cur.install[i].pkg == st.install[i].pkg);
            }
        },
        Pos::Build(b, k) => {
            if 0 <= b < st.build.len() {
                assert(same_base(st.build[b], cur.build[b]));
                assert(cur.build[b].makes().len() == st.build[b].makes().len());
            }
        },
    }
}

/// Clearing one place.
proof fn lemma_cleared<'a>(st: St<'a>, cur: St<'a>, pos: Pos)
    requires
        same_but_makes(st, cur),
        st.valid(pos),
    ensures
        same_but_makes(st, cleared(cur, pos)),
        forall|p: Pos|
            #![trigger cleared(cur, pos).is_make(p)]
            st.valid(p) ==> cleared(cur, pos).is_make(p) == (cur.is_make(p) && p != pos),
{
    let new = cleared(cur, pos);
    match pos {
        Pos::Install(i) => {
            assert(forall|b: int|
                0 <= b < st.build.len() ==> same_base(st.build[b], #[trigger] cur.build[b]));
        },
        Pos::Build(b, k) => {
            assert(same_base(st.build[b], cur.build[b]));
            assert forall|c: int| 0 <= c < st.build.len() implies same_base(
                st.build[c],
                #[trigger] new.build[c],
            ) by {
                assert(same_base(st.build[c], cur.build[c]));
            }
        },
    }
    assert forall|p: Pos| #![trigger new.is_make(p)] st.valid(p) implies new.is_make(p) == (
    cur.is_make(p) && p != pos) by {
        match p {
            Pos::Install(i) => {
                assert(cur.install[i].make == cur.install[i].make);
            },
            Pos::Build(b, k) => {
                assert(same_base(st.build[b], cur.build[b]));
            },
        }
    }
}

/// A package that meets a runtime dependency is needed at runtime.
proof fn lemma_reached<'a>(env: Env<'a>, st: St<'a>, dep: DependV, pos: Pos)
    requires
        st.valid(pos),
        from_runtime(env, st, dep),
        st.meets(env, pos, dep),
    ensures
        st.runtime(env, pos),
{
    let q = choose|q: Pos| st.runtime(env, q) && #[trigger] st.run_deps(env, q).contains(dep);
    let n = choose|n: nat| st.reach(env, n, q);
    let ds = st.run_deps(env, q);
    let j = choose|j: int| 0 <= j < ds.len() && ds[j] == dep;
    assert(st.meets(env, pos, st.run_deps(env, q)[j]));
    assert(st.runs_on(env, q, pos));
    assert(st.reach(env, n, q));
    assert(st.reach(env, n + 1, pos));
}

/// What holds still holds once a package that meets a runtime dependency has been cleared.
proof fn lemma_step<'a>(
    env: Env<'a>,
    st: St<'a>,
    cur: St<'a>,
    rt: Seq<DependV>,
    pos: Pos,
    j: int,
)
    requires
        inv(env, st, cur, rt),
        st.valid(pos),
        0 <= j < rt.len(),
        st.meets(env, pos, rt[j]),
    ensures
        inv(env, st, cleared(cur, pos), rt + st.run_deps(env, pos)),
{
    let new = cleared(cur, pos);
    let deps = st.run_deps(env, pos);
    let more = rt + deps;
    lemma_cleared(st, cur, pos);
    assert(from_runtime(env, st, rt[j]));
    lemma_reached(env, st, rt[j], pos);
    assert forall|p: Pos| st.valid(p) && !new.is_make(p) implies #[trigger] st.runtime(env, p) by {
        if p != pos {
            assert(!cur.is_make(p));
        }
    }
    assert forall|p: Pos| #[trigger] st.valid(p) && !st.is_make(p) implies !new.is_make(p) by {
        assert(!cur.is_make(p));
    }
    assert forall|p: Pos, k: int|
        st.valid(p) && !new.is_make(p) && 0 <= k < st.run_deps(env, p).len() implies more.contains(
        #[trigger] st.run_deps(env, p)[k],
    ) by {
        let x = st.run_deps(env, p)[k];
        if p == pos {
            assert(more[rt.len() + k] == x);
        } else {
            assert(!cur.is_make(p));
            assert(rt.contains(x));
            let l = choose|l: int| 0 <= l < rt.len() && rt[l] == x;
            assert(more[l] == x);
        }
    }
    assert forall|k: int| 0 <= k < more.len() implies from_runtime(env, st, #[trigger] more[k]) by {
        if k < rt.len() {
            assert(more[k] == rt[k]);
        } else {
            assert(more[k] == deps[k - rt.len()]);
            assert(st.run_deps(env, pos).contains(more[k]));
        }
    }
}

/// Where no make only package meets a runtime dependency, what is left is needed for builds only.
proof fn lemma_closed<'a>(env: Env<'a>, st: St<'a>, cur: St<'a>, rt: Seq<DependV>, n: nat, pos: Pos)
    requires
        inv(env, st, cur, rt),
        forall|p: Pos, j: int|
            st.valid(p) && cur.is_make(p) && 0 <= j < rt.len() ==> !#[trigger] st.meets(
                env,
                p,
                rt[j],
            ),
        st.reach(env, n, pos),
    ensures
        !cur.is_make(pos),
    decreases n,
{
    assert(st.valid(pos));
    if st.is_make(pos) {
        let q = choose|q: Pos|
            st.reach(env, (n - 1) as nat, q) && #[trigger] st.runs_on(env, q, pos);
        lemma_closed(env, st, cur, rt, (n - 1) as nat, q);
        assert(st.valid(q)) by {
            assert(st.reach(env, (n - 1) as nat, q));
        }
        let j = choose|j: int|
            0 <= j < st.run_deps(env, q).len() && st.meets(
                env,
                pos,
                #[trigger] st.run_deps(env, q)[j],
            );
        let x = st.run_deps(env, q)[j];
        assert(rt.contains(x));
        let l = choose|l: int| 0 <= l < rt.len() && rt[l] == x;
        assert(st.meets(env, pos, rt[l]));
    }
}

/// Where no make only package meets a runtime dependency, the work is done.
proof fn lemma_done<'a>(env: Env<'a>, st: St<'a>, cur: St<'a>, rt: Seq<DependV>)
    requires
        inv(env, st, cur, rt),
        forall|p: Pos, j: int|
            st.valid(p) && cur.is_make(p) && 0 <= j < rt.len() ==> !#[trigger] st.meets(
                env,
                p,
                rt[j],
            ),
    ensures
        cur == st.with_makes(st.make_only(env)),
{
    let f = st.make_only(env);
    let goal = st.with_makes(f);
    assert forall|pos: Pos| #[trigger] st.valid(pos) implies cur.is_make(pos) == f(pos) by {
        if st.runtime(env, pos) {
            let n = choose|n: nat| st.reach(env, n, pos);
            lemma_closed(env, st, cur, rt, n, pos);
        }
    }
    assert forall|i: int| 0 <= i < st.install.len() implies #[trigger] cur.install[i]
        == goal.install[i] by {
        assert(st.valid(Pos::Install(i)));
        assert(cur.is_make(Pos::Install(i)) == f(Pos::Install(i)));
    }
    assert(cur.install =~= goal.install);
    assert forall|b: int| 0 <= b < st.build.len() implies #[trigger] cur.build[b] == goal.build[b] by {
        assert(same_base(st.build[b], cur.build[b]));
        assert forall|k: int| 0 <= k < st.build[b].makes().len() implies cur.build[b].makes()[k]
            == f(Pos::Build(b, k)) by {
            assert(st.valid(Pos::Build(b, k)));
            assert(cur.is_make(Pos::Build(b, k)) == f(Pos::Build(b, k)));
        }
        match (cur.build[b], goal.build[b]) {
            (BaseV::Aur { pkgs: p, .. }, BaseV::Aur { pkgs: q, .. }) => {
                assert forall|k: int| 0 <= k < p.len() implies #[trigger] p[k] == q[k] by {
                    assert(cur.build[b].makes()[k] == p[k].make);
                }
                assert(p =~= q);
            },
            (BaseV::Pkgbuild { pkgs: p, .. }, BaseV::Pkgbuild { pkgs: q, .. }) => {
                assert forall|k: int| 0 <= k < p.len() implies #[trigger] p[k] == q[k] by {
                    assert(cur.build[b].makes()[k] == p[k].make);
                }
                assert(p =~= q);
            },
            _ => {},
        }
    }
    assert(cur.build =~= goal.build);
}

/// The place of a package among the actions.
#[derive(Debug, Copy, Clone)]
enum Place {
    /// A package that is to be installed.
    Install(usize),
    /// A base that is to be built and a package of it.
    Build(usize, usize),
}

impl View for Place {
    type V = Pos;

    closed spec fn view(&self) -> Pos {
        match *self {
            Place::Install(i) => Pos::Install(i as int),
            Place::Build(b, k) => Pos::Build(b as int, k as int),
        }
    }
}

/// The place comes before the `i`th package to install, or before the `k`th package of the `b`th
/// base.
spec fn before(pos: Pos, i: int, b: int, k: int) -> bool {
    match pos {
        Pos::Install(x) => x < i,
        Pos::Build(x, y) => x < b || (x == b && y < k),
    }
}

/// How many of the flags are set.
spec fn trues(s: Seq<bool>) -> nat
    decreases s.len(),
{
    if s.len() == 0 {
        0
    } else {
        trues(s.drop_last()) + (if s.last() {
            1nat
        } else {
            0nat
        })
    }
}

/// How many packages of the bases are make only.
spec fn base_trues<'a>(s: Seq<BaseV<'a>>) -> nat
    decreases s.len(),
{
    if s.len() == 0 {
        0
    } else {
        base_trues(s.drop_last()) + trues(s.last().makes())
    }
}

/// How many packages are make only.
spec fn count<'a>(st: St<'a>) -> nat {
    trues(st.install.map_values(|p: RepoPackage<'a>| p.make)) + base_trues(st.build)
}

/// Clearing a flag makes for one less.
proof fn lemma_trues(s: Seq<bool>, i: int)
    requires
        0 <= i < s.len(),
        s[i],
    ensures
        trues(s.update(i, false)) < trues(s),
    decreases s.len(),
{
    let t = s.update(i, false);
    if i == s.len() - 1 {
        assert(t.drop_last() =~= s.drop_last());
    } else {
        assert(t.drop_last() =~= s.drop_last().update(i, false));
        lemma_trues(s.drop_last(), i);
    }
}

/// Clearing a flag in a base makes for one less.
proof fn lemma_base_trues<'a>(s: Seq<BaseV<'a>>, b: int, new: BaseV<'a>)
    requires
        0 <= b < s.len(),
        trues(new.makes()) < trues(s[b].makes()),
    ensures
        base_trues(s.update(b, new)) < base_trues(s),
    decreases s.len(),
{
    let t = s.update(b, new);
    if b == s.len() - 1 {
        assert(t.drop_last() =~= s.drop_last());
    } else {
        assert(t.drop_last() =~= s.drop_last().update(b, new));
        lemma_base_trues(s.drop_last(), b, new);
    }
}

/// Clearing a make only package leaves one less.
proof fn lemma_count<'a>(st: St<'a>, pos: Pos)
    requires
        st.valid(pos),
        st.is_make(pos),
    ensures
        count(cleared(st, pos)) < count(st),
{
    let new = cleared(st, pos);
    match pos {
        Pos::Install(i) => {
            let s = st.install.map_values(|p: RepoPackage<'a>| p.make);
            let t = new.install.map_values(|p: RepoPackage<'a>| p.make);
            assert(t =~= s.update(i, false));
            lemma_trues(s, i);
        },
        Pos::Build(b, k) => {
            let s = st.build[b].makes();
            assert(new.build[b].makes() =~= s.update(k, false));
            lemma_trues(s, k);
            lemma_base_trues(st.build, b, new.build[b]);
        },
    }
}

/// What holds of the runtime dependencies while they are being gathered.
spec fn gathered<'a>(env: Env<'a>, st: St<'a>, rt: Seq<DependV>, i: int, b: int, k: int) -> bool {
    &&& forall|pos: Pos, j: int|
        st.valid(pos) && before(pos, i, b, k) && !st.is_make(pos) && 0 <= j < st.run_deps(
            env,
            pos,
        ).len() ==> rt.contains(#[trigger] st.run_deps(env, pos)[j])
    &&& forall|j: int| 0 <= j < rt.len() ==> from_runtime(env, st, #[trigger] rt[j])
}

/// Gathering what one more package needs.
proof fn lemma_gathered<'a>(
    env: Env<'a>,
    st: St<'a>,
    rt: Seq<DependV>,
    more: Seq<DependV>,
    pos: Pos,
    at: (int, int, int),
    next: (int, int, int),
)
    requires
        gathered(env, st, rt, at.0, at.1, at.2),
        st.valid(pos),
        more == (if st.is_make(pos) {
            rt
        } else {
            rt + st.run_deps(env, pos)
        }),
        forall|p: Pos|
            st.valid(p) && #[trigger] before(p, next.0, next.1, next.2) ==> before(
                p,
                at.0,
                at.1,
                at.2,
            ) || p == pos,
    ensures
        gathered(env, st, more, next.0, next.1, next.2),
{
    assert forall|p: Pos, j: int|
        st.valid(p) && before(p, next.0, next.1, next.2) && !st.is_make(p) && 0 <= j < st.run_deps(
            env,
            p,
        ).len() implies more.contains(#[trigger] st.run_deps(env, p)[j]) by {
        let x = st.run_deps(env, p)[j];
        if p == pos {
            assert(more[rt.len() + j] == x);
        } else {
            assert(rt.contains(x));
            let l = choose|l: int| 0 <= l < rt.len() && rt[l] == x;
            assert(more[l] == x);
        }
    }
    assert forall|j: int| 0 <= j < more.len() implies from_runtime(env, st, #[trigger] more[j]) by {
        if j < rt.len() {
            assert(more[j] == rt[j]);
        } else {
            assert(st.reach(env, 0, pos));
            assert(st.run_deps(env, pos)[j - rt.len()] == more[j]);
            assert(st.run_deps(env, pos).contains(more[j]));
        }
    }
}

/// The make only packages so far meet no runtime dependency.
spec fn settled<'a>(
    env: Env<'a>,
    st: St<'a>,
    cur: St<'a>,
    rt: Seq<DependV>,
    i: int,
    b: int,
    k: int,
) -> bool {
    forall|p: Pos, j: int|
        st.valid(p) && before(p, i, b, k) && cur.is_make(p) && 0 <= j < rt.len()
            ==> !#[trigger] st.meets(env, p, rt[j])
}

/// Appends dependencies.
fn extend_deps(to: &mut Vec<Depend>, from: Vec<Depend>)
    ensures
        depend::deps(final(to)@) == depend::deps(old(to)@) + depend::deps(from@),
{
    let mut from = from;
    proof {
        assert(depend::deps(to@ + from@) =~= depend::deps(to@) + depend::deps(from@));
    }
    to.append(&mut from);
}

/// A copy of a list of dependencies.
fn copy_deps(v: &Vec<Depend>) -> (r: Vec<Depend>)
    ensures
        depend::deps(r@) == depend::deps(v@),
{
    let mut r: Vec<Depend> = Vec::new();
    let mut i: usize = 0;
    while i < v.len()
        invariant
            i <= v.len(),
            r.len() == i,
            forall|j: int| 0 <= j < i ==> #[trigger] r@[j]@ == v@[j]@,
        decreases v.len() - i,
    {
        r.push(v[i].to_depend());
        i = i + 1;
    }
    proof {
        assert(depend::deps(r@) =~= depend::deps(v@));
    }
    r
}

impl<
    'a,
    A: Alpm,
    P: Fn(&str, &[String]) -> usize,
    G: Fn(&[Group<'a>]) -> Vec<&'a AlpmPkg>,
    D: Fn(&str) -> bool,
> Resolver<'a, A, P, G, D> {
    /// Is the package at the place make only.
    fn make_at(&self, at: Place) -> (r: bool)
        requires
            self.st().valid(at@),
        ensures
            r == self.st().is_make(at@),
    {
        match at {
            Place::Install(i) => self.actions.install[i].make,
            Place::Build(b, k) => {
                proof {
                    assert(self.st().build[b as int] == self.actions.build@[b as int]@);
                }
                match &self.actions.build[b] {
                    Base::Aur(base) => base.pkgs[k].make,
                    Base::Pkgbuild(base) => base.pkgs[k].make,
                }
            },
        }
    }

    /// What the package at the place needs at runtime.
    fn run_deps_at(&self, at: Place) -> (r: Vec<Depend>)
        requires
            self.wf(),
            self.st().valid(at@),
        ensures
            depend::deps(r@) == self.st().run_deps(self.env(), at@),
    {
        match at {
            Place::Install(i) => copy_deps(&self.actions.install[i].pkg.depends),
            Place::Build(b, k) => {
                proof {
                    assert(self.st().build[b as int] == self.actions.build@[b as int]@);
                }
                match &self.actions.build[b] {
                    Base::Aur(base) => satisfies::parse_all(self.alpm, &base.pkgs[k].pkg.depends),
                    Base::Pkgbuild(base) => {
                        let archs = &self.alpm.system().architectures;
                        let arch = if archs.len() > 0 {
                            Some(&archs[0])
                        } else {
                            None
                        };
                        let values = pkg::active_values(&base.pkgs[k].pkg.depends, arch);
                        satisfies::parse_all(self.alpm, &values)
                    },
                }
            },
        }
    }

    /// Does the package at the place meet the dependency.
    fn meets_at(&self, at: Place, dep: &Depend) -> (r: bool)
        requires
            self.wf(),
            self.st().valid(at@),
        ensures
            r == self.st().meets(self.env(), at@, dep@),
    {
        let nover = self.nover();
        match at {
            Place::Install(i) => self.actions.install[i].pkg.satisfies_dep(self.alpm, dep, nover),
            Place::Build(b, k) => {
                proof {
                    assert(self.st().build[b as int] == self.actions.build@[b as int]@);
                }
                match &self.actions.build[b] {
                    Base::Aur(base) => base.pkgs[k].pkg.satisfies_dep(self.alpm, dep, nover),
                    Base::Pkgbuild(base) => (base.srcinfo, base.pkgs[k].pkg).satisfies_dep(
                        self.alpm,
                        dep,
                        nover,
                    ),
                }
            },
        }
    }

    /// Notes that the package at the place is not make only.
    fn clear_at(&mut self, at: Place)
        requires
            old(self).wf(),
            old(self).st().valid(at@),
        ensures
            final(self).wf(),
            final(self).env() == old(self).env(),
            final(self).st() == cleared(old(self).st(), at@),
    {
        let ghost st = self.st();
        match at {
            Place::Install(i) => {
                let p = &self.actions.install[i];
                let q = Package { pkg: p.pkg, make: false, target: p.target };
                self.actions.install.set(i, q);
            },
            Place::Build(b, k) => {
                let ghost all = self.actions.build@;
                proof {
                    assert(st.build[b as int] == all[b as int]@);
                    assert(all[b as int]@.wf());
                }
                let base = self.actions.build.remove(b);
                let base = match base {
                    Base::Aur(base) => {
                        let mut base = base;
                        let p = &base.pkgs[k];
                        let q: AurPackage = Package {
                            pkg: p.pkg.clone(),
                            make: false,
                            target: p.target,
                        };
                        base.pkgs.set(k, q);
                        Base::Aur(base)
                    },
                    Base::Pkgbuild(base) => {
                        let mut base = base;
                        let p = &base.pkgs[k];
                        let q: Pkgbuild<'a> = Package { pkg: p.pkg, make: false, target: p.target };
                        base.pkgs.set(k, q);
                        Base::Pkgbuild(base)
                    },
                };
                self.actions.build.insert(b, base);
                proof {
                    assert(self.actions.build@ =~= all.update(b as int, base));
                    assert(self.st().build =~= cleared(st, at@).build);
                }
            },
        }
    }

    /// Clears the package at the place where it is make only and meets a runtime dependency: then
    /// what it needs is needed at runtime too. Tells whether it did.
    fn relax(&mut self, at: Place, runtime: &mut Vec<Depend>) -> (r: bool)
        requires
            old(self).wf(),
            old(self).st().valid(at@),
        ensures
            final(self).wf(),
            final(self).env() == old(self).env(),
            r ==> old(self).st().is_make(at@) && (exists|j: int|
                0 <= j < old(runtime)@.len() && old(self).st().meets(
                    old(self).env(),
                    at@,
                    #[trigger] depend::deps(old(runtime)@)[j],
                )),
            r ==> final(self).st() == cleared(old(self).st(), at@) && depend::deps(final(runtime)@)
                == depend::deps(old(runtime)@) + old(self).st().run_deps(old(self).env(), at@),
            !r ==> final(self).st() == old(self).st() && depend::deps(final(runtime)@)
                == depend::deps(old(runtime)@),
            !r && old(self).st().is_make(at@) ==> forall|j: int|
                0 <= j < old(runtime)@.len() ==> !old(self).st().meets(
                    old(self).env(),
                    at@,
                    #[trigger] depend::deps(old(runtime)@)[j],
                ),
    {
        if !self.make_at(at) {
            return false;
        }
        let ghost rt = depend::deps(runtime@);
        let mut i: usize = 0;
        while i < runtime.len()
            invariant
                self.wf(),
                self.st().valid(at@),
                i <= runtime.len(),
                rt == depend::deps(runtime@),
                forall|j: int|
                    0 <= j < i ==> !self.st().meets(self.env(), at@, #[trigger] rt[j]),
                self.env() == old(self).env(),
                self.st() == old(self).st(),
                rt == depend::deps(old(runtime)@),
                rt.len() == old(runtime)@.len(),
                old(self).st().is_make(at@),
            decreases runtime.len() - i,
        {
            if self.meets_at(at, &runtime[i]) {
                assert(self.st().meets(self.env(), at@, rt[i as int]));
                let deps = self.run_deps_at(at);
                self.clear_at(at);
                extend_deps(runtime, deps);
                return true;
            }
            i = i + 1;
        }
        false
    }

    /// What the packages that are not make only need at runtime.
    fn runtime_deps(&self) -> (r: Vec<Depend>)
        requires
            self.wf(),
        ensures
            inv(self.env(), self.st(), self.st(), depend::deps(r@)),
    {
        let ghost env = self.env();
        let ghost st = self.st();
        let mut r: Vec<Depend> = Vec::new();
        let mut i: usize = 0;
        proof {
            assert(forall|p: Pos| st.valid(p) ==> !#[trigger] before(p, 0, 0, 0));
        }
        while i < self.actions.install.len()
            invariant
                self.wf(),
                env == self.env(),
                st == self.st(),
                i <= self.actions.install.len(),
                gathered(env, st, depend::deps(r@), i as int, 0, 0),
            decreases self.actions.install.len() - i,
        {
            let at = Place::Install(i);
            let ghost rt = depend::deps(r@);
            if !self.make_at(at) {
                let deps = self.run_deps_at(at);
                extend_deps(&mut r, deps);
            }
            proof {
                lemma_gathered(
                    env,
                    st,
                    rt,
                    depend::deps(r@),
                    at@,
                    (i as int, 0, 0),
                    (i + 1, 0, 0),
                );
            }
            i = i + 1;
        }
        let mut b: usize = 0;
        while b < self.actions.build.len()
            invariant
                self.wf(),
                env == self.env(),
                st == self.st(),
                i == self.actions.install.len(),
                b <= self.actions.build.len(),
                gathered(env, st, depend::deps(r@), i as int, b as int, 0),
            decreases self.actions.build.len() - b,
        {
            let n = self.actions.build[b].package_count();
            let mut k: usize = 0;
            proof {
                assert(st.build[b as int] == self.actions.build@[b as int]@);
                assert(st.build[b as int].makes().len() == n);
            }
            while k < n
                invariant
                    self.wf(),
                    env == self.env(),
                    st == self.st(),
                    i == self.actions.install.len(),
                    b < self.actions.build.len(),
                    n == st.build[b as int].makes().len(),
                    k <= n,
                    gathered(env, st, depend::deps(r@), i as int, b as int, k as int),
                decreases n - k,
            {
                let at = Place::Build(b, k);
                let ghost rt = depend::deps(r@);
                if !self.make_at(at) {
                    let deps = self.run_deps_at(at);
                    extend_deps(&mut r, deps);
                }
                proof {
                    lemma_gathered(
                        env,
                        st,
                        rt,
                        depend::deps(r@),
                        at@,
                        (i as int, b as int, k as int),
                        (i as int, b as int, k + 1),
                    );
                }
                k = k + 1;
            }
            proof {
                assert forall|p: Pos, j: int|
                    st.valid(p) && before(p, i as int, b + 1, 0) && !st.is_make(p) && 0 <= j
                        < st.run_deps(env, p).len() implies depend::deps(r@).contains(
                    #[trigger] st.run_deps(env, p)[j],
                ) by {
                    assert(before(p, i as int, b as int, k as int));
                }
            }
            b = b + 1;
        }
        proof {
            let rt = depend::deps(r@);
            assert forall|p: Pos| st.valid(p) implies #[trigger] before(p, i as int, b as int, 0) by {
            }
            assert forall|pos: Pos| st.valid(pos) && !st.is_make(pos) implies #[trigger] st.runtime(
                env,
                pos,
            ) by {
                assert(st.reach(env, 0, pos));
            }
            assert forall|pos: Pos, j: int|
                st.valid(pos) && !st.is_make(pos) && 0 <= j < st.run_deps(env, pos).len() implies
                rt.contains(#[trigger] st.run_deps(env, pos)[j]) by {
                assert(before(pos, i as int, b as int, 0));
            }
        }
        r
    }

    /// Finds out which packages are needed for builds only: a package is needed at runtime where
    /// it is not make only, or meets a dependency of one that is needed at runtime.
    pub fn calculate_make(&mut self)
        requires
            old(self).wf(),
        ensures
            final(self).wf(),
            final(self).env() == old(self).env(),
            final(self).st() == old(self).st().with_makes(
                old(self).st().make_only(old(self).env()),
            ),
            runtime::same_packages(old(self).st(), final(self).st()),
            runtime::keeps_runtime(old(self).env(), final(self).st()),
    {
        let ghost env = self.env();
        let ghost st = self.st();
        let mut runtime = self.runtime_deps();
        let mut run = true;
        while run
            invariant
                self.wf(),
                self.env() == env,
                inv(env, st, self.st(), depend::deps(runtime@)),
                !run ==> settled(
                    env,
                    st,
                    self.st(),
                    depend::deps(runtime@),
                    st.install.len() as int,
                    st.build.len() as int,
                    0,
                ),
            decreases
                    count(self.st()),
                    (if run {
                        1nat
                    } else {
                        0nat
                    }),
        {
            let ghost total = count(self.st());
            run = false;
            let mut i: usize = 0;
            while i < self.actions.install.len()
                invariant
                    self.wf(),
                    self.env() == env,
                    inv(env, st, self.st(), depend::deps(runtime@)),
                    i <= st.install.len(),
                    run ==> count(self.st()) < total,
                    !run ==> count(self.st()) == total,
                    !run ==> settled(
                        env,
                        st,
                        self.st(),
                        depend::deps(runtime@),
                        i as int,
                        0,
                        0,
                    ),
                decreases st.install.len() - i,
            {
                let at = Place::Install(i);
                let ghost cur = self.st();
                let ghost rt = depend::deps(runtime@);
                proof {
                    lemma_same(env, st, cur, at@);
                }
                if self.relax(at, &mut runtime) {
                    run = true;
                    proof {
                        let j = choose|j: int|
                            0 <= j < rt.len() && cur.meets(env, at@, #[trigger] rt[j]);
                        lemma_step(env, st, cur, rt, at@, j);
                        lemma_count(cur, at@);
                    }
                }
                i = i + 1;
            }
            let mut b: usize = 0;
            while b < self.actions.build.len()
                invariant
                    self.wf(),
                    self.env() == env,
                    inv(env, st, self.st(), depend::deps(runtime@)),
                    i == st.install.len(),
                    b <= st.build.len(),
                    run ==> count(self.st()) < total,
                    !run ==> count(self.st()) == total,
                    !run ==> settled(
                        env,
                        st,
                        self.st(),
                        depend::deps(runtime@),
                        i as int,
                        b as int,
                        0,
                    ),
                decreases st.build.len() - b,
            {
                let n = self.actions.build[b].package_count();
                let mut k: usize = 0;
                proof {
                    assert(self.st().build[b as int] == self.actions.build@[b as int]@);
                    assert(same_base(st.build[b as int], self.st().build[b as int]));
                    assert(st.build[b as int].makes().len() == n);
                }
                while k < n
                    invariant
                        self.wf(),
                        self.env() == env,
                        inv(env, st, self.st(), depend::deps(runtime@)),
                        i == st.install.len(),
                        b < st.build.len(),
                        n == st.build[b as int].makes().len(),
                        k <= n,
                        run ==> count(self.st()) < total,
                        !run ==> count(self.st()) == total,
                        !run ==> settled(
                            env,
                            st,
                            self.st(),
                            depend::deps(runtime@),
                            i as int,
                            b as int,
                            k as int,
                        ),
                    decreases n - k,
                {
                    let at = Place::Build(b, k);
                    let ghost cur = self.st();
                    let ghost rt = depend::deps(runtime@);
                    proof {
                        lemma_same(env, st, cur, at@);
                    }
                    if self.relax(at, &mut runtime) {
                        run = true;
                        proof {
                            let j = choose|j: int|
                                0 <= j < rt.len() && cur.meets(env, at@, #[trigger] rt[j]);
                            lemma_step(env, st, cur, rt, at@, j);
                            lemma_count(cur, at@);
                        }
                    }
                    k = k + 1;
                }
                proof {
                    assert forall|p: Pos| st.valid(p) && before(p, i as int, b + 1, 0) implies
                        #[trigger] before(p, i as int, b as int, k as int) by {
                    }
                }
                b = b + 1;
            }
        }
        proof {
            assert forall|p: Pos| st.valid(p) implies #[trigger] before(
                p,
                st.install.len() as int,
                st.build.len() as int,
                0,
            ) by {
            }
            lemma_done(env, st, self.st(), depend::deps(runtime@));
            runtime::law_keeps(env, st);
        }
    }
}

/// Calculating make dependencies changes what is make only, and nothing else.
proof fn lemma_with_makes<'a>(st: St<'a>, f: spec_fn(Pos) -> bool)
    ensures
        same_but_makes(st, st.with_makes(f)),
        forall|pos: Pos| #[trigger] st.valid(pos) ==> st.with_makes(f).is_make(pos) == f(pos),
{
    let r = st.with_makes(f);
    assert forall|pos: Pos| #[trigger] st.valid(pos) implies r.is_make(pos) == f(pos) by {
        match pos {
            Pos::Install(i) => {},
            Pos::Build(b, k) => {
                assert(r.build[b].makes()[k] == f(Pos::Build(b, k)));
            },
        }
    }
}

/// Calculating make dependencies only ever clears: what was not make only does not become so. And
/// what a package that is not make only needs at runtime is not make only.
pub proof fn law_make<'a>(env: Env<'a>, st: St<'a>, from: Pos, to: Pos)
    requires
        st.valid(from),
        st.valid(to),
    ensures
        ({
            let r = st.with_makes(st.make_only(env));
            &&& r.is_make(to) ==> st.is_make(to)
            &&& !r.is_make(from) && st.runs_on(env, from, to) ==> !r.is_make(to)
        }),
{
    let r = st.with_makes(st.make_only(env));
    lemma_with_makes(st, st.make_only(env));
    if !st.is_make(to) {
        assert(st.reach(env, 0, to));
    }
    if !r.is_make(from) && st.runs_on(env, from, to) {
        let n = choose|n: nat| st.reach(env, n, from);
        assert(st.reach(env, n, from));
        assert(st.reach(env, n + 1, to));
    }
}

/// What is reached once make dependencies have been calculated was needed at runtime before.
proof fn lemma_reach_back<'a>(env: Env<'a>, st: St<'a>, n: nat, pos: Pos)
    requires
        st.with_makes(st.make_only(env)).reach(env, n, pos),
    ensures
        st.runtime(env, pos),
    decreases n,
{
    let r = st.with_makes(st.make_only(env));
    lemma_with_makes(st, st.make_only(env));
    lemma_same(env, st, r, pos);
    assert(st.valid(pos));
    if r.is_make(pos) {
        let q = choose|q: Pos|
            r.reach(env, (n - 1) as nat, q) && #[trigger] r.runs_on(env, q, pos);
        lemma_reach_back(env, st, (n - 1) as nat, q);
        assert(r.valid(q)) by {
            assert(r.reach(env, (n - 1) as nat, q));
        }
        lemma_same(env, st, r, q);
        let j = choose|j: int|
            0 <= j < r.run_deps(env, q).len() && r.meets(env, pos, #[trigger] r.run_deps(env, q)[j]);
        assert(st.meets(env, pos, st.run_deps(env, q)[j]));
        assert(st.runs_on(env, q, pos));
        let m = choose|m: nat| st.reach(env, m, q);
        assert(st.reach(env, m, q));
        assert(st.reach(env, m + 1, pos));
    }
}

/// Calculating make dependencies once more changes nothing.
pub proof fn law_make_again<'a>(env: Env<'a>, st: St<'a>)
    ensures
        ({
            let r = st.with_makes(st.make_only(env));
            r.with_makes(r.make_only(env)) == r
        }),
{
    let f = st.make_only(env);
    let r = st.with_makes(f);
    let g = r.make_only(env);
    let z = r.with_makes(g);
    lemma_with_makes(st, f);
    lemma_with_makes(r, g);
    assert forall|pos: Pos| #[trigger] r.valid(pos) implies g(pos) == r.is_make(pos) by {
        lemma_same(env, st, r, pos);
        if r.runtime(env, pos) {
            let n = choose|n: nat| r.reach(env, n, pos);
            lemma_reach_back(env, st, n, pos);
        }
        if !r.is_make(pos) {
            assert(r.reach(env, 0, pos));
        }
    }
    assert forall|i: int| 0 <= i < r.install.len() implies #[trigger] z.install[i] == r.install[i] by {
        assert(r.valid(Pos::Install(i)));
    }
    assert(z.install =~= r.install);
    assert forall|b: int| 0 <= b < r.build.len() implies #[trigger] z.build[b] == r.build[b] by {
        assert forall|k: int| 0 <= k < r.build[b].makes().len() implies g(Pos::Build(b, k))
            == r.build[b].makes()[k] by {
            assert(r.valid(Pos::Build(b, k)));
            assert(r.is_make(Pos::Build(b, k)) == g(Pos::Build(b, k)));
        }
        match (z.build[b], r.build[b]) {
            (BaseV::Aur { pkgs: p, .. }, BaseV::Aur { pkgs: q, .. }) => {
                assert forall|k: int| 0 <= k < p.len() implies #[trigger] p[k] == q[k] by {
                    assert(r.build[b].makes()[k] == q[k].make);
                }
                assert(p =~= q);
            },
            (BaseV::Pkgbuild { pkgs: p, .. }, BaseV::Pkgbuild { pkgs: q, .. }) => {
                assert forall|k: int| 0 <= k < p.len() implies #[trigger] p[k] == q[k] by {
                    assert(r.build[b].makes()[k] == q[k].make);
                }
                assert(p =~= q);
            },
            _ => {},
        }
    }
    assert(z.build =~= r.build);
}

} // verus!
