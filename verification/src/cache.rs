//! The AUR packages that have been looked up.
use std::sync::Arc;
use vstd::prelude::*;
use crate::pkg::AurPkg;
use crate::seqs;

verus! {

/// AUR packages, one for each name.
#[derive(Debug, Clone)]
pub struct Cache {
    pkgs: Vec<Arc<AurPkg>>,
}

impl View for Cache {
    type V = Seq<Arc<AurPkg>>;

    closed spec fn view(&self) -> Seq<Arc<AurPkg>> {
        self.pkgs@
    }
}

/// The package has the name.
pub open spec fn named(name: Seq<char>) -> spec_fn(Arc<AurPkg>) -> bool {
    |p: Arc<AurPkg>| p.name@ == name
}

/// The package with the name.
pub open spec fn lookup(c: Seq<Arc<AurPkg>>, name: Seq<char>) -> Option<Arc<AurPkg>> {
    seqs::first(c, named(name))
}

/// The packages after one more has been added: where its name is taken nothing changes.
pub open spec fn inserted(c: Seq<Arc<AurPkg>>, p: Arc<AurPkg>) -> Seq<Arc<AurPkg>> {
    if lookup(c, p.name@) is Some {
        c
    } else {
        c.push(p)
    }
}

/// The packages after several have been added in order.
pub open spec fn inserted_all(c: Seq<Arc<AurPkg>>, ps: Seq<Arc<AurPkg>>) -> Seq<Arc<AurPkg>>
    decreases ps.len(),
{
    if ps.len() == 0 {
        c
    } else {
        inserted_all(inserted(c, ps[0]), ps.drop_first())
    }
}

/// No two packages have the same name.
pub open spec fn distinct(c: Seq<Arc<AurPkg>>) -> bool {
    forall|i: int, j: int| 0 <= i < j < c.len() ==> #[trigger] c[i].name@ != #[trigger] c[j].name@
}

impl Cache {
    /// No two packages have the same name.
    pub open spec fn wf(&self) -> bool {
        distinct(self@)
    }

    /// Create an empty cache.
    pub fn new() -> (r: Self)
        ensures
            r.wf(),
            r@ == Seq::<Arc<AurPkg>>::empty(),
    {
        Cache { pkgs: Vec::new() }
    }

    /// The number of packages.
    pub fn len(&self) -> (r: usize)
        ensures
            r == self@.len(),
    {
        self.pkgs.len()
    }

    /// The package at a position.
    pub fn at(&self, i: usize) -> (r: &Arc<AurPkg>)
        requires
            i < self@.len(),
        ensures
            *r == self@[i as int],
    {
        &self.pkgs[i]
    }

    /// Searches for the package with the name.
    pub fn get(&self, name: &String) -> (r: Option<&Arc<AurPkg>>)
        ensures
            r == crate::alpm::as_ref(lookup(self@, name@)),
    {
        let mut i: usize = 0;
        while i < self.pkgs.len()
            invariant
                i <= self.pkgs.len(),
                forall|j: int| 0 <= j < i ==> !named(name@)(#[trigger] self@[j]),
            decreases self.pkgs.len() - i,
        {
            if self.pkgs[i].name == *name {
                proof {
                    seqs::lemma_first_at(self@, named(name@), i as int);
                }
                return Some(&self.pkgs[i]);
            }
            i = i + 1;
        }
        proof {
            seqs::lemma_first_at(self@, named(name@), i as int);
        }
        None
    }

    /// Adds a package unless its name is taken. Returns whether it was added.
    pub fn insert(&mut self, p: Arc<AurPkg>) -> (r: bool)
        ensures
            final(self)@ == inserted(old(self)@, p),
            old(self).wf() ==> final(self).wf(),
            r == (lookup(old(self)@, p.name@) is None),
    {
        proof {
            seqs::lemma_first(self@, named(p.name@));
        }
        if self.get(&p.name).is_some() {
            return false;
        }
        proof {
            assert forall|j: int| 0 <= j < self@.len() implies #[trigger] self@[j].name@ != p.name@ by {
                assert(!named(p.name@)(self@[j]));
            }
        }
        self.pkgs.push(p);
        true
    }
}

impl Default for Cache {
    fn default() -> (r: Self)
        ensures
            r.wf(),
            r@ == Seq::<Arc<AurPkg>>::empty(),
    {
        Cache::new()
    }
}

/// A package that was added is found, and what was found before is found still.
pub proof fn lemma_insert_get(c: Seq<Arc<AurPkg>>, p: Arc<AurPkg>, name: Seq<char>)
    ensures
        lookup(inserted(c, p), p.name@) is Some,
        lookup(c, p.name@) is None ==> lookup(inserted(c, p), p.name@) == Some(p),
        lookup(c, name) is Some ==> lookup(inserted(c, p), name) == lookup(c, name),
{
    let d = inserted(c, p);
    seqs::lemma_first(c, named(p.name@));
    seqs::lemma_first(c, named(name));
    if lookup(c, p.name@) is None {
        assert forall|j: int| 0 <= j < c.len() implies !named(p.name@)(#[trigger] d[j]) by {
            assert(d[j] == c[j]);
        }
        seqs::lemma_first_at(d, named(p.name@), c.len() as int);
        if lookup(c, name) is Some {
            let k = seqs::first_at(c, named(name));
            assert forall|j: int| 0 <= j < k implies !named(name)(#[trigger] d[j]) by {
                assert(d[j] == c[j]);
            }
            seqs::lemma_first_at(d, named(name), k);
        }
    }
}

} // verus!
