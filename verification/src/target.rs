//! Targets: a package, optionally from a named repository.
use vstd::prelude::*;
use crate::text;

verus! {

/// A package to find, optionally from a specific repository.
#[derive(Debug, Clone, PartialEq, Eq)]
pub struct Targ {
    /// The repository the package should come from. None for any repository.
    pub repo: Option<String>,
    /// The name of the package, may also contain a version constraint.
    pub pkg: String,
}

/// A target over characters.
pub struct TargV {
    pub repo: Option<Seq<char>>,
    pub pkg: Seq<char>,
}

impl View for Targ {
    type V = TargV;

    open spec fn view(&self) -> TargV {
        TargV { repo: text::opt_str(self.repo), pkg: self.pkg@ }
    }
}

/// The targets of a list over characters.
pub open spec fn targs(v: Seq<Targ>) -> Seq<TargV> {
    v.map_values(|t: Targ| t@)
}

/// The position of the first `/`.
pub open spec fn slash(s: Seq<char>) -> int {
    text::first_index(s, |c: char| c == '/')
}

/// The target that `repo/pkg` or `pkg` names. A second `/` and what follows it is dropped.
pub open spec fn targ_of(s: Seq<char>) -> TargV {
    if slash(s) == s.len() {
        TargV { repo: None, pkg: s }
    } else {
        let rest = s.skip(slash(s) + 1);
        TargV { repo: Some(s.take(slash(s))), pkg: rest.take(slash(rest)) }
    }
}

impl TargV {
    /// The target as a string.
    pub open spec fn text(self) -> Seq<char> {
        match self.repo {
            Some(repo) => repo + seq!['/'] + self.pkg,
            None => self.pkg,
        }
    }
}

/// The position of the first `/` at or after `from`.
fn find_slash(s: &str, from: usize) -> (r: usize)
    requires
        from <= s@.len(),
    ensures
        from <= r <= s@.len(),
        r - from == slash(s@.skip(from as int)),
{
    let n = s.unicode_len();
    let mut i: usize = from;
    while i < n && s.get_char(i) != '/'
        invariant
            n == s@.len(),
            from <= i <= n,
            forall|j: int| from <= j < i ==> #[trigger] s@[j] != '/',
        decreases n - i,
    {
        i = i + 1;
    }
    proof {
        let t = s@.skip(from as int);
        assert forall|j: int| 0 <= j < i - from implies #[trigger] t[j] != '/' by {
            assert(t[j] == s@[j + from]);
        }
        text::lemma_first_index(t, |c: char| c == '/', i - from);
    }
    i
}

impl Targ {
    /// Create a new target.
    pub fn new(repo: Option<String>, pkg: String) -> (r: Targ)
        ensures
            r@ == (TargV { repo: text::opt_str(repo), pkg: pkg@ }),
    {
        Targ { repo, pkg }
    }

    /// Reads a target from `repo/pkg` or `pkg`.
    pub fn parse(s: &str) -> (r: Targ)
        ensures
            r@ == targ_of(s@),
    {
        let n = s.unicode_len();
        let i = find_slash(s, 0);
        proof {
            assert(s@.skip(0) =~= s@);
        }
        if i == n {
            Targ { repo: None, pkg: s.to_owned() }
        } else {
            let j = find_slash(s, i + 1);
            proof {
                assert(s@.subrange(0, i as int) =~= s@.take(i as int));
                assert(s@.subrange(i + 1, j as int) =~= s@.skip(i + 1).take(j - (i + 1)));
            }
            Targ {
                repo: Some(s.substring_char(0, i).to_owned()),
                pkg: s.substring_char(i + 1, j).to_owned(),
            }
        }
    }

    /// The target as a string.
    pub fn text(&self) -> (r: String)
        ensures
            r@ == self@.text(),
    {
        match &self.repo {
            Some(repo) => {
                proof {
                    reveal_strlit("/");
                    assert("/"@ =~= seq!['/']);
                }
                repo.clone().concat("/").concat(self.pkg.as_str())
            },
            None => self.pkg.clone(),
        }
    }

    /// A copy of the target.
    pub fn copy(&self) -> (r: Targ)
        ensures
            r@ == self@,
    {
        match &self.repo {
            Some(repo) => Targ { repo: Some(repo.clone()), pkg: self.pkg.clone() },
            None => Targ { repo: None, pkg: self.pkg.clone() },
        }
    }
}

/// Reading back a target that was written as a string gives the target, so long as neither the
/// repository nor the package holds a `/`.
pub proof fn lemma_targ_round_trip(t: TargV)
    requires
        slash(t.pkg) == t.pkg.len(),
        t.repo matches Some(repo) ==> slash(repo) == repo.len(),
    ensures
        targ_of(t.text()) == t,
{
    let stop = |c: char| c == '/';
    match t.repo {
        Some(repo) => {
            let s = t.text();
            lemma_no_slash(repo);
            assert forall|j: int| 0 <= j < repo.len() implies !stop(#[trigger] s[j]) by {
                assert(s[j] == repo[j]);
            }
            text::lemma_first_index(s, stop, repo.len() as int);
            assert(s.take(repo.len() as int) =~= repo);
            assert(s.skip(repo.len() as int + 1) =~= t.pkg);
            assert(t.pkg.take(t.pkg.len() as int) =~= t.pkg);
        },
        None => {},
    }
}

proof fn lemma_no_slash(s: Seq<char>)
    requires
        slash(s) == s.len(),
    ensures
        forall|j: int| 0 <= j < s.len() ==> #[trigger] s[j] != '/',
    decreases s.len(),
{
    if s.len() > 0 {
        lemma_no_slash(s.drop_first());
        assert forall|j: int| 0 <= j < s.len() implies #[trigger] s[j] != '/' by {
            if j > 0 {
                assert(s.drop_first()[j - 1] == s[j]);
            }
        }
    }
}

/// A target is read up to its first `/` as the repository, and from there up to the next one as the
/// package. Without a `/` it is all package.
pub proof fn law_parse(repo: Seq<char>, pkg: Seq<char>, rest: Seq<char>)
    requires
        !repo.contains('/'),
        !pkg.contains('/'),
    ensures
        targ_of(pkg) == (TargV { repo: None, pkg }),
        targ_of(repo + seq!['/'] + pkg) == (TargV { repo: Some(repo), pkg }),
        targ_of(repo + seq!['/'] + pkg + seq!['/'] + rest) == (TargV { repo: Some(repo), pkg }),
{
    let stop = |c: char| c == '/';
    let n = repo.len() as int;
    let k = pkg.len() as int;
    assert forall|j: int| 0 <= j < k implies !stop(#[trigger] pkg[j]) by {
        assert(pkg.contains(pkg[j]));
    }
    assert forall|j: int| 0 <= j < n implies !stop(#[trigger] repo[j]) by {
        assert(repo.contains(repo[j]));
    }
    text::lemma_first_index(pkg, stop, k);
    let s = repo + seq!['/'] + pkg;
    assert forall|j: int| 0 <= j < n implies !stop(#[trigger] s[j]) by {
        assert(s[j] == repo[j]);
    }
    text::lemma_first_index(s, stop, n);
    assert(s.take(n) =~= repo);
    assert(s.skip(n + 1) =~= pkg);
    assert(pkg.take(k) =~= pkg);
    let l = repo + seq!['/'] + pkg + seq!['/'] + rest;
    assert forall|j: int| 0 <= j < n implies !stop(#[trigger] l[j]) by {
        assert(l[j] == repo[j]);
    }
    text::lemma_first_index(l, stop, n);
    assert(l.take(n) =~= repo);
    let m = l.skip(n + 1);
    assert forall|j: int| 0 <= j < k implies !stop(#[trigger] m[j]) by {
        assert(m[j] == pkg[j]);
    }
    assert(m[k] == '/');
    text::lemma_first_index(m, stop, k);
    assert(m.take(k) =~= pkg);
}

} // verus!
