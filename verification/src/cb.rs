//! The callbacks of the resolver.
use vstd::prelude::*;
use crate::alpm;
use crate::alpm::{AlpmPkg, Db, PkgGroup};
use crate::text;

verus! {

/// A callback that may be set.
#[derive(Debug)]
pub struct Callback<F>(pub Option<F>);

/// A db and a group of it, passed to the group callback.
#[derive(Debug, Copy, Clone)]
pub struct Group<'a> {
    /// The db the group belongs to.
    pub db: &'a Db,
    /// The group.
    pub group: &'a PkgGroup,
}

impl<F> Callback<F> {
    /// The callback, where it is set.
    pub fn get(&self) -> (r: Option<&F>)
        ensures
            r == alpm::as_ref(self.0),
    {
        match &self.0 {
            Some(f) => Some(f),
            None => None,
        }
    }
}

impl<F> Default for Callback<F> {
    fn default() -> (r: Self)
        ensures
            r.0 is None,
    {
        Callback(None)
    }
}

/// `f` picks providers as `g` does, which gives the position of one of the names it is given.
pub open spec fn provider_as<F: Fn(&str, &[String]) -> usize>(
    f: F,
    g: spec_fn(Seq<char>, Seq<Seq<char>>) -> int,
) -> bool {
    &&& forall|s: &str, v: &[String]| v@.len() > 0 ==> call_requires(f, (s, v))
    &&& forall|s: &str, v: &[String], r: usize|
        call_ensures(f, (s, v), r) && v@.len() > 0 ==> r == g(s@, text::strs(v@))
    &&& in_range(g)
}

/// `g` gives the position of one of the names it is given.
pub open spec fn in_range(g: spec_fn(Seq<char>, Seq<Seq<char>>) -> int) -> bool {
    forall|s: Seq<char>, names: Seq<Seq<char>>|
        names.len() > 0 ==> 0 <= #[trigger] g(s, names) < names.len()
}

/// `f` picks from groups as `g` does.
pub open spec fn group_as<'a, F: Fn(&[Group<'a>]) -> Vec<&'a AlpmPkg>>(
    f: F,
    g: spec_fn(Seq<Group<'a>>) -> Seq<&'a AlpmPkg>,
) -> bool {
    &&& forall|v: &[Group<'a>]| call_requires(f, (v,))
    &&& forall|v: &[Group<'a>], r: Vec<&'a AlpmPkg>| call_ensures(f, (v,), r) ==> r@ == g(v@)
}

/// `f` tells devel packages as `g` does.
pub open spec fn devel_as<F: Fn(&str) -> bool>(f: F, g: spec_fn(Seq<char>) -> bool) -> bool {
    &&& forall|s: &str| call_requires(f, (s,))
    &&& forall|s: &str, r: bool| call_ensures(f, (s,), r) ==> r == g(s@)
}

/// The provider callback answers the same way each time.
pub open spec fn provider_steady<F: Fn(&str, &[String]) -> usize>(f: F) -> bool {
    exists|g: spec_fn(Seq<char>, Seq<Seq<char>>) -> int| provider_as(f, g)
}

/// The group callback answers the same way each time.
pub open spec fn group_steady<'a, F: Fn(&[Group<'a>]) -> Vec<&'a AlpmPkg>>(f: F) -> bool {
    exists|g: spec_fn(Seq<Group<'a>>) -> Seq<&'a AlpmPkg>| group_as(f, g)
}

/// The devel callback answers the same way each time.
pub open spec fn devel_steady<F: Fn(&str) -> bool>(f: F) -> bool {
    exists|g: spec_fn(Seq<char>) -> bool| devel_as(f, g)
}

/// The choices of the provider callback.
pub open spec fn provider_model<F: Fn(&str, &[String]) -> usize>(c: Callback<F>) -> Option<
    spec_fn(Seq<char>, Seq<Seq<char>>) -> int,
> {
    match c.0 {
        Some(f) => Some(choose|g: spec_fn(Seq<char>, Seq<Seq<char>>) -> int| provider_as(f, g)),
        None => None,
    }
}

/// The choices of the group callback.
pub open spec fn group_model<'a, F: Fn(&[Group<'a>]) -> Vec<&'a AlpmPkg>>(c: Callback<F>) -> Option<
    spec_fn(Seq<Group<'a>>) -> Seq<&'a AlpmPkg>,
> {
    match c.0 {
        Some(f) => Some(choose|g: spec_fn(Seq<Group<'a>>) -> Seq<&'a AlpmPkg>| group_as(f, g)),
        None => None,
    }
}

/// The answers of the devel callback.
pub open spec fn devel_model<F: Fn(&str) -> bool>(c: Callback<F>) -> Option<
    spec_fn(Seq<char>) -> bool,
> {
    match c.0 {
        Some(f) => Some(choose|g: spec_fn(Seq<char>) -> bool| devel_as(f, g)),
        None => None,
    }
}

/// The provider callback can be asked, and answers with a valid position.
pub open spec fn provider_able<F: Fn(&str, &[String]) -> usize>(c: Callback<F>) -> bool {
    c.0 matches Some(f) ==> {
        &&& forall|s: &str, v: &[String]| v@.len() > 0 ==> call_requires(f, (s, v))
        &&& forall|s: &str, v: &[String], r: usize|
            call_ensures(f, (s, v), r) && v@.len() > 0 ==> r < v@.len()
    }
}

/// The group callback can be asked.
pub open spec fn group_able<'a, F: Fn(&[Group<'a>]) -> Vec<&'a AlpmPkg>>(c: Callback<F>) -> bool {
    c.0 matches Some(f) ==> forall|v: &[Group<'a>]| call_requires(f, (v,))
}

/// The devel callback can be asked.
pub open spec fn devel_able<F: Fn(&str) -> bool>(c: Callback<F>) -> bool {
    c.0 matches Some(f) ==> forall|s: &str| call_requires(f, (s,))
}

/// The provider callback may answer with the position when it is asked about the names.
pub open spec fn provider_may<F: Fn(&str, &[String]) -> usize>(
    c: Callback<F>,
    dep: Seq<char>,
    names: Seq<Seq<char>>,
    k: int,
) -> bool {
    c.0 matches Some(f) && exists|s: &str, v: &[String], r: usize| #[trigger]
        call_ensures(f, (s, v), r) && s@ == dep && text::strs(v@) == names && r == k
}

/// The group callback may pick the packages when it is asked about the groups.
pub open spec fn group_may<'a, F: Fn(&[Group<'a>]) -> Vec<&'a AlpmPkg>>(
    c: Callback<F>,
    groups: Seq<Group<'a>>,
    pkgs: Seq<&'a AlpmPkg>,
) -> bool {
    c.0 matches Some(f) && exists|v: &[Group<'a>], r: Vec<&'a AlpmPkg>| #[trigger]
        call_ensures(f, (v,), r) && v@ == groups && r@ == pkgs
}

/// The provider callback answers the same way each time, and with a valid position.
pub open spec fn provider_wf<F: Fn(&str, &[String]) -> usize>(c: Callback<F>) -> bool {
    c.0 is Some ==> provider_as(c.0->0, provider_model(c)->0)
}

/// The group callback answers the same way each time.
pub open spec fn group_wf<'a, F: Fn(&[Group<'a>]) -> Vec<&'a AlpmPkg>>(c: Callback<F>) -> bool {
    c.0 is Some ==> group_as(c.0->0, group_model(c)->0)
}

/// The devel callback answers the same way each time.
pub open spec fn devel_wf<F: Fn(&str) -> bool>(c: Callback<F>) -> bool {
    c.0 is Some ==> devel_as(c.0->0, devel_model(c)->0)
}

} // verus!
