//! Dependencies as libalpm parses them.
use vstd::prelude::*;

verus! {

/// The version constraint of a dependency.
#[derive(Debug, Clone, PartialEq, Eq)]
pub enum DepModVer {
    /// Any version will do.
    Any,
    /// The version has to equal this one.
    Eq(String),
    /// The version has to be at least this one.
    Ge(String),
    /// The version has to be at most this one.
    Le(String),
    /// The version has to be newer than this one.
    Gt(String),
    /// The version has to be older than this one.
    Lt(String),
}

/// A version constraint over characters.
pub enum DepModVerV {
    Any,
    Eq(Seq<char>),
    Ge(Seq<char>),
    Le(Seq<char>),
    Gt(Seq<char>),
    Lt(Seq<char>),
}

/// A dependency: a name and a version constraint.
#[derive(Debug, Clone, PartialEq, Eq)]
pub struct Depend {
    /// The name of what is depended on.
    pub name: String,
    /// The version constraint.
    pub depmodver: DepModVer,
    /// The dependency as a string.
    pub text: String,
}

/// A dependency over characters.
pub struct DependV {
    pub name: Seq<char>,
    pub depmodver: DepModVerV,
    pub text: Seq<char>,
}

/// How one version compares to another.
#[derive(Debug, Copy, Clone, PartialEq, Eq, Structural)]
pub enum VerOrder {
    /// Older.
    Less,
    /// The same.
    Equal,
    /// Newer.
    Greater,
}

impl View for DepModVer {
    type V = DepModVerV;

    open spec fn view(&self) -> DepModVerV {
        match *self {
            DepModVer::Any => DepModVerV::Any,
            DepModVer::Eq(v) => DepModVerV::Eq(v@),
            DepModVer::Ge(v) => DepModVerV::Ge(v@),
            DepModVer::Le(v) => DepModVerV::Le(v@),
            DepModVer::Gt(v) => DepModVerV::Gt(v@),
            DepModVer::Lt(v) => DepModVerV::Lt(v@),
        }
    }
}

impl View for Depend {
    type V = DependV;

    open spec fn view(&self) -> DependV {
        DependV { name: self.name@, depmodver: self.depmodver@, text: self.text@ }
    }
}

/// The dependencies of a list over characters.
pub open spec fn deps(v: Seq<Depend>) -> Seq<DependV> {
    v.map_values(|d: Depend| d@)
}

impl DepModVer {
    /// Does the constraint admit any version.
    pub fn is_any(&self) -> (r: bool)
        ensures
            r == (self@ is Any),
    {
        matches!(self, DepModVer::Any)
    }

    /// A copy of the constraint.
    pub fn copy(&self) -> (r: DepModVer)
        ensures
            r@ == self@,
    {
        match self {
            DepModVer::Any => DepModVer::Any,
            DepModVer::Eq(v) => DepModVer::Eq(v.clone()),
            DepModVer::Ge(v) => DepModVer::Ge(v.clone()),
            DepModVer::Le(v) => DepModVer::Le(v.clone()),
            DepModVer::Gt(v) => DepModVer::Gt(v.clone()),
            DepModVer::Lt(v) => DepModVer::Lt(v.clone()),
        }
    }
}

impl Depend {
    /// A copy of the dependency.
    pub fn to_depend(&self) -> (r: Depend)
        ensures
            r@ == self@,
    {
        Depend {
            name: self.name.clone(),
            depmodver: self.depmodver.copy(),
            text: self.text.clone(),
        }
    }
}

} // verus!
