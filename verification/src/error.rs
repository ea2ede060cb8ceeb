//! The error type of the library's callers.
use vstd::prelude::*;

verus! {

/// The error type for aur-depends.
#[derive(Debug, Clone, PartialEq, Eq)]
pub enum Error {
    /// An error occurred in alpm.
    Alpm(String),
    /// An error occurred while asking the AUR.
    Raur(String),
    /// Packages of pkgbuild repos depend on one another too deeply.
    TooDeep,
}

impl Error {
    /// What the error says.
    pub open spec fn says(self) -> Seq<char> {
        match self {
            Error::Alpm(e) => e@,
            Error::Raur(e) => e@,
            Error::TooDeep => "dependencies of pkgbuilds go too deep"@,
        }
    }

    /// The error as a string.
    pub fn text(&self) -> (r: String)
        ensures
            r@ == self.says(),
    {
        match self {
            Error::Alpm(e) => e.clone(),
            Error::Raur(e) => e.clone(),
            Error::TooDeep => "dependencies of pkgbuilds go too deep".to_owned(),
        }
    }
}

} // verus!
