//! Which inner conflicts fall away when make dependencies are left out.
use vstd::prelude::*;
use crate::base::{BuildPkg, RepoPackage};
use crate::conflicts;
use crate::conflicts::{Acts, Clash, ConflictV, ConflictingV};
use crate::depend;
use crate::depend::DependV;
use crate::seqs;
use crate::text;

verus! {

impl<'a> Acts<'a> {
    /// A package with the name is make only.
    pub open spec fn make_named(self, name: Seq<char>) -> bool {
        ||| exists|i: int|
            0 <= i < self.install.len() && (#[trigger] self.install[i]).make
                && self.install[i].pkg.name@ == name
        ||| exists|i: int|
            0 <= i < self.build.len() && (#[trigger] self.build[i]).is_make()
                && self.build[i].pkgname() == name
    }

    /// Neither of the packages that clash is make only.
    pub open spec fn both_run(self) -> spec_fn(Clash) -> bool {
        |c: Clash| !self.make_named(c.pkg) && !self.make_named(c.with)
    }
}

/// Filtering what comes of mapping.
proof fn lemma_map_filter<T, U>(
    s: Seq<T>,
    p: spec_fn(T) -> bool,
    q: spec_fn(T) -> bool,
    f: spec_fn(T) -> U,
    k: spec_fn(U) -> bool,
)
    requires
        forall|i: int| 0 <= i < s.len() ==> q(#[trigger] s[i]) == (p(s[i]) && k(f(s[i]))),
    ensures
        s.filter(p).map_values(f).filter(k) == s.filter(q).map_values(f),
    decreases s.len(),
{
    if s.len() == 0 {
        assert(s =~= Seq::empty());
        seqs::lemma_filter_empty(s, p);
        seqs::lemma_filter_empty(s, q);
        assert(s.filter(p).map_values(f) =~= Seq::empty());
        seqs::lemma_filter_empty(s.filter(p).map_values(f), k);
        assert(s.filter(q).map_values(f) =~= Seq::empty());
    } else {
        let t = s.drop_last();
        let x = s.last();
        assert(s =~= t.push(x));
        assert forall|i: int| 0 <= i < t.len() implies q(#[trigger] t[i]) == (p(t[i]) && k(
            f(t[i]),
        )) by {
            assert(t[i] == s[i]);
        }
        lemma_map_filter(t, p, q, f, k);
        seqs::lemma_filter_push(t, p, x);
        seqs::lemma_filter_push(t, q, x);
        assert(s[s.len() - 1] == x);
        let a = t.filter(p);
        let b = t.filter(q);
        assert(a.push(x).map_values(f) =~= a.map_values(f).push(f(x)));
        assert(b.push(x).map_values(f) =~= b.map_values(f).push(f(x)));
        seqs::lemma_filter_push(a.map_values(f), k, f(x));
    }
}

/// Filtering a sum.
proof fn lemma_sum_filter<T>(a: Seq<T>, b: Seq<T>, k: spec_fn(T) -> bool)
    ensures
        (a + b).filter(k) == a.filter(k) + b.filter(k),
    decreases b.len(),
{
    if b.len() == 0 {
        assert(a + b =~= a);
        seqs::lemma_filter_empty(b, k);
        assert(a.filter(k) + b.filter(k) =~= a.filter(k));
    } else {
        let t = b.drop_last();
        let x = b.last();
        assert(a + b =~= (a + t).push(x));
        assert(b =~= t.push(x));
        lemma_sum_filter(a, t, k);
        seqs::lemma_filter_push(a + t, k, x);
        seqs::lemma_filter_push(t, k, x);
        assert(a.filter(k) + t.filter(k).push(x) =~= (a.filter(k) + t.filter(k)).push(x));
    }
}

/// Filtering what comes of the elements for which `p` holds, where nothing is left of the others and
/// `g` gives what is left.
proof fn lemma_flat_filter<T, U>(
    s: Seq<T>,
    p: spec_fn(T) -> bool,
    q: spec_fn(T) -> bool,
    f: spec_fn(T) -> Seq<U>,
    g: spec_fn(T) -> Seq<U>,
    k: spec_fn(U) -> bool,
)
    requires
        forall|i: int|
            0 <= i < s.len() && p(#[trigger] s[i]) ==> f(s[i]).filter(k) == (if q(s[i]) {
                g(s[i])
            } else {
                Seq::empty()
            }),
        forall|i: int| 0 <= i < s.len() && q(#[trigger] s[i]) ==> p(s[i]),
    ensures
        seqs::flat(s.filter(p), f).filter(k) == seqs::flat(s.filter(q), g),
    decreases s.len(),
{
    if s.len() == 0 {
        seqs::lemma_filter_empty(s, p);
        seqs::lemma_filter_empty(s, q);
        assert(seqs::flat(s.filter(p), f) =~= Seq::empty());
        assert(seqs::flat(s.filter(q), g) =~= Seq::empty());
        seqs::lemma_filter_empty(seqs::flat(s.filter(p), f), k);
    } else {
        let t = s.drop_last();
        let x = s.last();
        assert(s =~= t.push(x));
        assert(s[s.len() - 1] == x);
        assert forall|i: int| 0 <= i < t.len() && p(#[trigger] t[i]) implies f(t[i]).filter(k) == (
        if q(t[i]) {
            g(t[i])
        } else {
            Seq::empty()
        }) by {
            assert(t[i] == s[i]);
        }
        assert forall|i: int| 0 <= i < t.len() && q(#[trigger] t[i]) implies p(t[i]) by {
            assert(t[i] == s[i]);
        }
        lemma_flat_filter(t, p, q, f, g, k);
        seqs::lemma_filter_push(t, p, x);
        seqs::lemma_filter_push(t, q, x);
        if p(x) {
            seqs::lemma_flat_push(t.filter(p), f, x);
            lemma_sum_filter(seqs::flat(t.filter(p), f), f(x), k);
            if q(x) {
                seqs::lemma_flat_push(t.filter(q), g, x);
            } else {
                assert(seqs::flat(t.filter(q), g) + Seq::empty() =~= seqs::flat(t.filter(q), g));
            }
        }
    }
}

/// Of packages with distinct names the name tells whether one is make only.
proof fn lemma_make<'a>(a: Acts<'a>)
    requires
        a.names().no_duplicates(),
    ensures
        forall|i: int|
            0 <= i < a.install.len() ==> a.make_named((#[trigger] a.install[i]).pkg.name@)
                == a.install[i].make,
        forall|i: int|
            0 <= i < a.build.len() ==> a.make_named((#[trigger] a.build[i]).pkgname())
                == a.build[i].is_make(),
{
    let n = a.install.len() as int;
    let names = a.names();
    assert(forall|i: int| 0 <= i < n ==> names[i] == (#[trigger] a.install[i]).pkg.name@);
    assert(forall|i: int|
        0 <= i < a.build.len() ==> names[n + i] == (#[trigger] a.build[i]).pkgname());
    assert forall|x: int| 0 <= x < names.len() implies a.make_named(#[trigger] names[x]) == (if x
        < n {
        a.install[x].make
    } else {
        a.build[x - n].is_make()
    }) by {
        if a.make_named(names[x]) {
            if exists|i: int|
                0 <= i < n && (#[trigger] a.install[i]).make && a.install[i].pkg.name@ == names[x] {
                let i = choose|i: int|
                    0 <= i < n && (#[trigger] a.install[i]).make && a.install[i].pkg.name@
                        == names[x];
                assert(names[i] == names[x]);
            } else {
                let i = choose|i: int|
                    0 <= i < a.build.len() && (#[trigger] a.build[i]).is_make()
                        && a.build[i].pkgname() == names[x];
                assert(names[n + i] == names[x]);
            }
        }
    }
}

/// The clashes by one conflict of a package.
proof fn lemma_reverse<'a>(a: Acts<'a>, name: Seq<char>, dep: DependV)
    requires
        a.names().no_duplicates(),
    ensures
        a.reverse(false, name)(dep).filter(a.both_run()) == (if a.make_named(name) {
            Seq::empty()
        } else {
            a.reverse(true, name)(dep)
        }),
{
    let k = a.both_run();
    let f = conflicts::repo_clash::<'a>(name, dep);
    let g = conflicts::build_clash::<'a>(name, dep);
    let x = a.install.filter(a.repo_hit(false, name, dep)).map_values(f);
    let y = a.build.filter(a.build_hit(false, name, dep)).map_values(g);
    lemma_make(a);
    lemma_sum_filter(x, y, k);
    if a.make_named(name) {
        let p = |p: RepoPackage<'a>| false;
        let q = |p: BuildPkg<'a>| false;
        lemma_map_filter(a.install, a.repo_hit(false, name, dep), p, f, k);
        lemma_map_filter(a.build, a.build_hit(false, name, dep), q, g, k);
        seqs::lemma_filter_empty(a.install, p);
        seqs::lemma_filter_empty(a.build, q);
        assert(a.install.filter(p).map_values(f) + a.build.filter(q).map_values(g) =~= Seq::empty());
    } else {
        lemma_map_filter(a.install, a.repo_hit(false, name, dep), a.repo_hit(true, name, dep), f, k);
        lemma_map_filter(a.build, a.build_hit(false, name, dep), a.build_hit(true, name, dep), g, k);
    }
}

/// The clashes by the conflicts of a package.
proof fn lemma_reverse_list<'a>(a: Acts<'a>, name: Seq<char>, deps: Seq<DependV>)
    requires
        a.names().no_duplicates(),
    ensures
        seqs::flat(deps, a.reverse(false, name)).filter(a.both_run()) == (if a.make_named(name) {
            Seq::empty()
        } else {
            seqs::flat(deps, a.reverse(true, name))
        }),
{
    let all = |d: DependV| true;
    let some = |d: DependV| !a.make_named(name);
    lemma_filter_all(deps, all);
    assert forall|i: int| 0 <= i < deps.len() && all(#[trigger] deps[i]) implies a.reverse(
        false,
        name,
    )(deps[i]).filter(a.both_run()) == (if some(deps[i]) {
        a.reverse(true, name)(deps[i])
    } else {
        Seq::empty()
    }) by {
        lemma_reverse(a, name, deps[i]);
    }
    lemma_flat_filter(
        deps,
        all,
        some,
        a.reverse(false, name),
        a.reverse(true, name),
        a.both_run(),
    );
    if a.make_named(name) {
        seqs::lemma_filter_empty(deps, some);
        assert(seqs::flat(deps.filter(some), a.reverse(true, name)) =~= Seq::empty());
    } else {
        lemma_filter_all(deps, some);
    }
}

/// Filtering nothing out.
proof fn lemma_filter_all<T>(s: Seq<T>, p: spec_fn(T) -> bool)
    requires
        forall|i: int| 0 <= i < s.len() ==> p(#[trigger] s[i]),
    ensures
        s.filter(p) == s,
    decreases s.len(),
{
    if s.len() == 0 {
        seqs::lemma_filter_empty(s, p);
        assert(s =~= Seq::empty());
    } else {
        let t = s.drop_last();
        assert(s =~= t.push(s.last()));
        assert forall|i: int| 0 <= i < t.len() implies p(#[trigger] t[i]) by {
            assert(t[i] == s[i]);
        }
        lemma_filter_all(t, p);
        seqs::lemma_filter_push(t, p, s.last());
        assert(p(s[s.len() - 1]));
    }
}

/// Where names are distinct, leaving out make dependencies takes away exactly the inner clashes in
/// which one of the two packages is make only.
pub proof fn law_inner_clashes<'a>(a: Acts<'a>)
    requires
        a.names().no_duplicates(),
    ensures
        a.inner_clashes(true) == a.inner_clashes(false).filter(a.both_run()),
{
    let k = a.both_run();
    let x = seqs::flat(a.install.filter(conflicts::repo_counts(false)), a.repo_reverse(false));
    let y = seqs::flat(a.build.filter(conflicts::build_counts(false)), a.build_reverse(false));
    lemma_make(a);
    lemma_sum_filter(x, y, k);
    assert forall|i: int|
        0 <= i < a.install.len() && conflicts::repo_counts(false)(
            #[trigger] a.install[i],
        ) implies a.repo_reverse(false)(a.install[i]).filter(k) == (if conflicts::repo_counts(true)(
        a.install[i],
    ) {
        a.repo_reverse(true)(a.install[i])
    } else {
        Seq::empty()
    }) by {
        let p = a.install[i];
        lemma_reverse_list(a, p.pkg.name@, depend::deps(p.pkg.conflicts@));
    }
    lemma_flat_filter(
        a.install,
        conflicts::repo_counts(false),
        conflicts::repo_counts(true),
        a.repo_reverse(false),
        a.repo_reverse(true),
        k,
    );
    assert forall|i: int|
        0 <= i < a.build.len() && conflicts::build_counts(false)(
            #[trigger] a.build[i],
        ) implies a.build_reverse(false)(a.build[i]).filter(k) == (if conflicts::build_counts(true)(
        a.build[i],
    ) {
        a.build_reverse(true)(a.build[i])
    } else {
        Seq::empty()
    }) by {
        let p = a.build[i];
        lemma_reverse_list(a, p.pkgname(), a.build_conflicts(p));
    }
    lemma_flat_filter(
        a.build,
        conflicts::build_counts(false),
        conflicts::build_counts(true),
        a.build_reverse(false),
        a.build_reverse(true),
        k,
    );
}

/// The conflicts report the package as conflicting with `with`.
pub open spec fn reported(r: Seq<ConflictV>, pkg: Seq<char>, with: ConflictingV) -> bool {
    exists|i: int|
        0 <= i < r.len() && (#[trigger] r[i]).pkg == pkg && r[i].conflicting.contains(with)
}

/// The clash is between the packages.
pub open spec fn between(c: Clash, pkg: Seq<char>, with: ConflictingV) -> bool {
    c.pkg == pkg && conflicts::shown(c.with, c.dep) == with
}

/// What is reported is what clashes.
pub proof fn lemma_reported(
    clashes: Seq<Clash>,
    r: Seq<ConflictV>,
    pkg: Seq<char>,
    with: ConflictingV,
)
    requires
        conflicts::grouped(clashes, r),
    ensures
        reported(r, pkg, with) <==> exists|c: Clash| #[trigger]
            clashes.contains(c) && between(c, pkg, with),
{
    if reported(r, pkg, with) {
        let i = choose|i: int|
            0 <= i < r.len() && (#[trigger] r[i]).pkg == pkg && r[i].conflicting.contains(with);
        let own = clashes.filter(conflicts::about(pkg));
        let shown = own.map_values(conflicts::clash_shown());
        let k = choose|k: int| 0 <= k < shown.len() && shown[k] == with;
        seqs::lemma_filter_contains(clashes, conflicts::about(pkg), own[k]);
        assert(own.contains(own[k]));
        assert(clashes.contains(own[k]) && between(own[k], pkg, with));
    }
    if exists|c: Clash| #[trigger] clashes.contains(c) && between(c, pkg, with) {
        let c = choose|c: Clash| #[trigger] clashes.contains(c) && between(c, pkg, with);
        let n = choose|n: int| 0 <= n < clashes.len() && clashes[n] == c;
        assert(conflicts::has_entry(r, clashes[n].pkg));
        let i = choose|i: int| 0 <= i < r.len() && (#[trigger] r[i]).pkg == pkg;
        let own = clashes.filter(conflicts::about(pkg));
        seqs::lemma_filter_contains(clashes, conflicts::about(pkg), c);
        let k = choose|k: int| 0 <= k < own.len() && own[k] == c;
        assert(own.map_values(conflicts::clash_shown())[k] == with);
        assert(r[i].conflicting.contains(with));
    }
}

/// The clashes determine what is reported.
pub proof fn lemma_grouped(clashes: Seq<Clash>, r: Seq<ConflictV>, s: Seq<ConflictV>)
    requires
        conflicts::grouped(clashes, r),
        conflicts::grouped(clashes, s),
    ensures
        r == s,
    decreases r.len(),
{
    let p = r.map_values(|c: ConflictV| c.pkg);
    let q = s.map_values(|c: ConflictV| c.pkg);
    assert forall|name: Seq<char>| p.contains(name) implies q.contains(name) by {
        lemma_has_entry(clashes, r, s, name);
    }
    assert forall|name: Seq<char>| q.contains(name) implies p.contains(name) by {
        lemma_has_entry(clashes, s, r, name);
    }
    lemma_sorted_unique(p, q);
    assert forall|i: int| 0 <= i < r.len() implies r[i] == s[i] by {
        assert(p[i] == q[i]);
        assert(r[i].conflicting == s[i].conflicting);
    }
    assert(p.len() == r.len());
    assert(r =~= s);
}

/// A package that is reported in one is in the other.
proof fn lemma_has_entry(
    clashes: Seq<Clash>,
    r: Seq<ConflictV>,
    s: Seq<ConflictV>,
    name: Seq<char>,
)
    requires
        conflicts::grouped(clashes, r),
        conflicts::grouped(clashes, s),
        r.map_values(|c: ConflictV| c.pkg).contains(name),
    ensures
        s.map_values(|c: ConflictV| c.pkg).contains(name),
{
    let p = r.map_values(|c: ConflictV| c.pkg);
    let q = s.map_values(|c: ConflictV| c.pkg);
    let i = choose|i: int| 0 <= i < p.len() && p[i] == name;
    assert(r[i].conflicting.len() > 0);
    let own = clashes.filter(conflicts::about(name));
    assert(own.len() > 0);
    seqs::lemma_filter_contains(clashes, conflicts::about(name), own[0]);
    assert(own.contains(own[0]));
    let n = choose|n: int| 0 <= n < clashes.len() && clashes[n] == own[0];
    assert(conflicts::has_entry(s, clashes[n].pkg));
    let j = choose|j: int| 0 <= j < s.len() && (#[trigger] s[j]).pkg == name;
    assert(q[j] == name);
}

/// Sorted names without repetition are determined by which they are.
proof fn lemma_sorted_unique(p: Seq<Seq<char>>, q: Seq<Seq<char>>)
    requires
        forall|i: int, j: int|
            0 <= i < j < p.len() ==> text::str_lt(#[trigger] p[i], #[trigger] p[j]),
        forall|i: int, j: int|
            0 <= i < j < q.len() ==> text::str_lt(#[trigger] q[i], #[trigger] q[j]),
        forall|name: Seq<char>| p.contains(name) <==> q.contains(name),
    ensures
        p == q,
    decreases p.len(),
{
    if p.len() == 0 {
        if q.len() > 0 {
            assert(q.contains(q[0]));
        }
        assert(p =~= q);
    } else {
        assert(p.contains(p[0]));
        let j = choose|j: int| 0 <= j < q.len() && q[j] == p[0];
        assert(q.contains(q[0]));
        let i = choose|i: int| 0 <= i < p.len() && p[i] == q[0];
        if j > 0 {
            assert(text::str_lt(q[0], q[j]));
            if i > 0 {
                assert(text::str_lt(p[0], p[i]));
                text::lemma_str_lt_total(p[0], q[0]);
                text::lemma_str_lt_trans(p[0], q[0], p[0]);
            }
            text::lemma_str_lt_total(p[0], p[0]);
        }
        let a = p.drop_first();
        let b = q.drop_first();
        assert forall|name: Seq<char>| a.contains(name) <==> b.contains(name) by {
            if a.contains(name) {
                let x = choose|x: int| 0 <= x < a.len() && a[x] == name;
                assert(p[x + 1] == name);
                assert(p.contains(name));
                let y = choose|y: int| 0 <= y < q.len() && q[y] == name;
                assert(text::str_lt(p[0], p[x + 1]));
                text::lemma_str_lt_total(p[0], p[0]);
                assert(b[y - 1] == name);
            }
            if b.contains(name) {
                let x = choose|x: int| 0 <= x < b.len() && b[x] == name;
                assert(q[x + 1] == name);
                assert(q.contains(name));
                let y = choose|y: int| 0 <= y < p.len() && p[y] == name;
                assert(text::str_lt(q[0], q[x + 1]));
                text::lemma_str_lt_total(q[0], q[0]);
                assert(a[y - 1] == name);
            }
        }
        lemma_sorted_unique(a, b);
        assert(p =~= seq![p[0]] + a);
        assert(q =~= seq![q[0]] + b);
    }
}

/// Where names are distinct, leaving out make dependencies takes away exactly the inner conflicts in
/// which one of the two packages is make only. Where no package is make only it changes nothing.
pub proof fn law_inner_conflicts<'a>(
    a: Acts<'a>,
    without: Seq<ConflictV>,
    with: Seq<ConflictV>,
    pkg: Seq<char>,
    other: ConflictingV,
)
    requires
        a.names().no_duplicates(),
        conflicts::grouped(a.inner_clashes(true), without),
        conflicts::grouped(a.inner_clashes(false), with),
    ensures
        reported(without, pkg, other) <==> reported(with, pkg, other) && !a.make_named(pkg)
            && !a.make_named(other.pkg),
        (forall|name: Seq<char>| !#[trigger] a.make_named(name)) ==> without == with,
{
    let few = a.inner_clashes(true);
    let all = a.inner_clashes(false);
    let k = a.both_run();
    law_inner_clashes(a);
    lemma_reported(few, without, pkg, other);
    lemma_reported(all, with, pkg, other);
    assert forall|c: Clash| #[trigger] few.contains(c) == (all.contains(c) && k(c)) by {
        seqs::lemma_filter_contains(all, k, c);
    }
    if reported(with, pkg, other) && !a.make_named(pkg) && !a.make_named(other.pkg) {
        let c = choose|c: Clash| #[trigger] all.contains(c) && between(c, pkg, other);
        assert(few.contains(c));
    }
    if reported(without, pkg, other) {
        let c = choose|c: Clash| #[trigger] few.contains(c) && between(c, pkg, other);
        assert(all.contains(c));
    }
    if forall|name: Seq<char>| !#[trigger] a.make_named(name) {
        lemma_filter_all(all, k);
        lemma_grouped(all, without, with);
    }
}

} // verus!
