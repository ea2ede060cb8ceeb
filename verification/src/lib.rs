//! # aur-depends
//!
//! aur-depends is a dependency solving library for the AUR.
//!
//! See [`Resolver`] for more info.
use vstd::prelude::*;

pub mod actions;
pub mod alpm;
pub mod base;
pub mod cache;
pub mod cb;
pub mod conflicts;
pub mod depend;
pub mod error;
pub mod flags;
pub mod model;
pub mod pkg;
pub mod resolve;
pub mod satisfies;
pub mod seqs;
pub mod target;
pub mod text;

pub use crate::actions::{Actions, DepMissing, Missing, Unneeded};
pub use crate::base::{
    AurBase, AurPackage, Base, BuildPkg, Package, Pkgbuild, PkgbuildPackages, RepoPackage,
};
pub use crate::cb::Group;
pub use crate::conflicts::{Conflict, Conflicting};
pub use crate::error::Error;
pub use crate::flags::Flags;
pub use crate::pkg::PkgbuildRepo;
pub use crate::resolve::upgrade::{AurUpdate, PkgbuildUpdate, Updates};
pub use crate::resolve::Resolver;
pub use crate::satisfies::{satisfies, satisfies_provide, Satisfies};

verus! {

} // verus!
