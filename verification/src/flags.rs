//! Configuration of the resolver.
use vstd::prelude::*;

verus! {

/// Config options for the resolver.
#[derive(Debug, Copy, Clone, PartialEq, Eq, Structural)]
pub struct Flags {
    /// The bits of the options that are set.
    pub bits: u32,
}

impl Flags {
    /// Do not resolve dependencies.
    pub const NO_DEPS: u32 = 0x4;

    /// Do not enforce version constraints on dependencies.
    pub const NO_DEP_VERSION: u32 = 0x8;

    /// Solve provides for targets.
    pub const TARGET_PROVIDES: u32 = 0x10;

    /// Solve provides for non targets.
    pub const NON_TARGET_PROVIDES: u32 = 0x20;

    /// Solve provides for missing packages.
    pub const MISSING_PROVIDES: u32 = 0x40;

    /// Solve provides in all instances.
    pub const PROVIDES: u32 = 0x80;

    /// Calculate which packages are only needed to build the packages.
    pub const CALCULATE_MAKE: u32 = 0x100;

    /// Solve checkdepends.
    pub const CHECK_DEPENDS: u32 = 0x400;

    /// Ignore targets that are up to date.
    pub const NEEDED: u32 = 0x800;

    /// Search PKGBUILD repos for upgrades and targets.
    pub const PKGBUILDS: u32 = 0x1000;

    /// Search the AUR for targets.
    pub const AUR: u32 = 0x2000;

    /// Search alpm repos for targets.
    pub const REPO: u32 = 0x4000;

    /// When fetching updates, also include packages that are older than locally installed.
    pub const ENABLE_DOWNGRADE: u32 = 0x8000;

    /// Pull in pkgbuild dependencies even if they are already satisfied.
    pub const RESOLVE_SATISFIED_PKGBUILDS: u32 = 0x10000;

    /// Every option of `mask` is set.
    pub open spec fn has(self, mask: u32) -> bool {
        self.bits & mask == mask
    }

    /// Are all the options of `mask` set.
    pub fn contains(self, mask: u32) -> (r: bool)
        ensures
            r == self.has(mask),
    {
        self.bits & mask == mask
    }

    /// Create a new Flags with the default configuration.
    pub fn new() -> (r: Flags)
        ensures
            r.bits == 0x7550,
            r.has(Flags::CALCULATE_MAKE),
            r.has(Flags::TARGET_PROVIDES),
            r.has(Flags::MISSING_PROVIDES),
            r.has(Flags::CHECK_DEPENDS),
            r.has(Flags::AUR),
            r.has(Flags::REPO),
            r.has(Flags::PKGBUILDS),
            !r.has(Flags::NO_DEPS),
            !r.has(Flags::NO_DEP_VERSION),
            !r.has(Flags::NON_TARGET_PROVIDES),
            !r.has(Flags::PROVIDES),
            !r.has(Flags::NEEDED),
            !r.has(Flags::ENABLE_DOWNGRADE),
            !r.has(Flags::RESOLVE_SATISFIED_PKGBUILDS),
    {
        let bits: u32 = Flags::CALCULATE_MAKE | Flags::TARGET_PROVIDES | Flags::MISSING_PROVIDES
            | Flags::CHECK_DEPENDS | Flags::AUR | Flags::REPO | Flags::PKGBUILDS;
        proof {
            assert(0x100u32 | 0x10 | 0x40 | 0x400 | 0x2000 | 0x4000 | 0x1000 == 0x7550)
                by (bit_vector);
            lemma_defaults(0x7550);
        }
        Flags { bits }
    }

    /// Create a new Flags with repo targets disabled.
    pub fn aur_only() -> (r: Flags)
        ensures
            r.bits == 0x3550,
            r.has(Flags::CALCULATE_MAKE),
            r.has(Flags::TARGET_PROVIDES),
            r.has(Flags::MISSING_PROVIDES),
            r.has(Flags::CHECK_DEPENDS),
            r.has(Flags::AUR),
            r.has(Flags::PKGBUILDS),
            !r.has(Flags::NO_DEPS),
            !r.has(Flags::NO_DEP_VERSION),
            !r.has(Flags::NON_TARGET_PROVIDES),
            !r.has(Flags::PROVIDES),
            !r.has(Flags::NEEDED),
            !r.has(Flags::ENABLE_DOWNGRADE),
            !r.has(Flags::RESOLVE_SATISFIED_PKGBUILDS),
            !r.has(Flags::REPO),
    {
        proof {
            assert(0x7550u32 & !0x4000u32 == 0x3550) by (bit_vector);
            lemma_defaults(0x3550);
        }
        Flags::new() & !Flags::REPO
    }
}

/// Which options are set in the two values that are made.
proof fn lemma_defaults(bits: u32)
    requires
        bits == 0x7550 || bits == 0x3550,
    ensures
        bits & 0x100 == 0x100,
        bits & 0x10 == 0x10,
        bits & 0x40 == 0x40,
        bits & 0x400 == 0x400,
        bits & 0x2000 == 0x2000,
        bits & 0x1000 == 0x1000,
        bits & 0x4000 == (if bits == 0x7550 {
            0x4000u32
        } else {
            0
        }),
        bits & 0x4 == 0,
        bits & 0x8 == 0,
        bits & 0x20 == 0,
        bits & 0x80 == 0,
        bits & 0x800 == 0,
        bits & 0x8000 == 0,
        bits & 0x10000 == 0,
{
    assert(bits & 0x100 == 0x100
        && bits & 0x10 == 0x10
        && bits & 0x40 == 0x40
        && bits & 0x400 == 0x400
        && bits & 0x2000 == 0x2000
        && bits & 0x1000 == 0x1000
        && bits & 0x4 == 0
        && bits & 0x8 == 0
        && bits & 0x20 == 0
        && bits & 0x80 == 0
        && bits & 0x800 == 0
        && bits & 0x8000 == 0
        && bits & 0x10000 == 0) by (bit_vector)
        requires
            bits == 0x7550 || bits == 0x3550,
    ;
    assert(bits & 0x4000 == (if bits == 0x7550 {
        0x4000u32
    } else {
        0
    })) by (bit_vector)
        requires
            bits == 0x7550 || bits == 0x3550,
    ;
}

/// All the options.
pub open spec fn options() -> Seq<u32> {
    seq![
        Flags::NO_DEPS,
        Flags::NO_DEP_VERSION,
        Flags::TARGET_PROVIDES,
        Flags::NON_TARGET_PROVIDES,
        Flags::MISSING_PROVIDES,
        Flags::PROVIDES,
        Flags::CALCULATE_MAKE,
        Flags::CHECK_DEPENDS,
        Flags::NEEDED,
        Flags::PKGBUILDS,
        Flags::AUR,
        Flags::REPO,
        Flags::ENABLE_DOWNGRADE,
        Flags::RESOLVE_SATISFIED_PKGBUILDS,
    ]
}

/// Every option can be set and cleared by itself: setting one or clearing it shows in that one, and in no
/// other.
pub proof fn law_options(f: Flags, i: int, j: int)
    requires
        0 <= i < options().len(),
        0 <= j < options().len(),
    ensures
        (Flags { bits: f.bits | options()[i] }).has(options()[j]) <==> i == j || f.has(
            options()[j],
        ),
        (Flags { bits: f.bits & !options()[i] }).has(options()[j]) <==> i != j && f.has(
            options()[j],
        ),
{
    let a = options()[i];
    let b = options()[j];
    let bits = f.bits;
    assert(is_bit(a) && is_bit(b) && (a == b <==> i == j));
    assert((bits | a) & b == b <==> a == b || bits & b == b) by (bit_vector)
        requires
            is_bit(a),
            is_bit(b),
    ;
    assert((bits & !a) & b == b <==> a != b && bits & b == b) by (bit_vector)
        requires
            is_bit(a),
            is_bit(b),
    ;
}

/// The number is that of one of the options.
spec fn is_bit(a: u32) -> bool {
    ||| a == 0x4
    ||| a == 0x8
    ||| a == 0x10
    ||| a == 0x20
    ||| a == 0x40
    ||| a == 0x80
    ||| a == 0x100
    ||| a == 0x400
    ||| a == 0x800
    ||| a == 0x1000
    ||| a == 0x2000
    ||| a == 0x4000
    ||| a == 0x8000
    ||| a == 0x10000
}

impl Default for Flags {
    fn default() -> (r: Flags)
        ensures
            r.bits == 0x7550,
    {
        Flags::new()
    }
}

impl std::ops::BitOr<u32> for Flags {
    type Output = Flags;

    fn bitor(self, rhs: u32) -> (r: Flags) {
        Flags { bits: self.bits | rhs }
    }
}

impl vstd::std_specs::ops::BitOrSpecImpl<u32> for Flags {
    open spec fn obeys_bitor_spec() -> bool {
        true
    }

    open spec fn bitor_req(self, rhs: u32) -> bool {
        true
    }

    open spec fn bitor_spec(self, rhs: u32) -> Flags {
        Flags { bits: self.bits | rhs }
    }
}

impl std::ops::BitAnd<u32> for Flags {
    type Output = Flags;

    fn bitand(self, rhs: u32) -> (r: Flags) {
        Flags { bits: self.bits & rhs }
    }
}

impl vstd::std_specs::ops::BitAndSpecImpl<u32> for Flags {
    open spec fn obeys_bitand_spec() -> bool {
        true
    }

    open spec fn bitand_req(self, rhs: u32) -> bool {
        true
    }

    open spec fn bitand_spec(self, rhs: u32) -> Flags {
        Flags { bits: self.bits & rhs }
    }
}

/// The default configuration and the AUR-only one differ in `REPO` alone.
pub proof fn lemma_aur_only(new: Flags, aur_only: Flags, mask: u32)
    requires
        new.bits == 0x7550,
        aur_only.bits == 0x3550,
    ensures
        new.has(Flags::REPO),
        !aur_only.has(Flags::REPO),
        mask & Flags::REPO == 0 ==> new.has(mask) == aur_only.has(mask),
{
    assert(0x7550u32 & 0x4000 == 0x4000) by (bit_vector);
    assert(0x3550u32 & 0x4000 != 0x4000) by (bit_vector);
    assert(mask & 0x4000 == 0 ==> 0x7550u32 & mask == 0x3550u32 & mask) by (bit_vector);
}

/// Setting options sets them and clears none.
pub proof fn lemma_set(a: Flags, set: u32, mask: u32)
    ensures
        (Flags { bits: a.bits | set }).has(set),
        a.has(mask) ==> (Flags { bits: a.bits | set }).has(mask),
{
    let x = a.bits;
    assert((x | set) & set == set) by (bit_vector);
    assert(x & mask == mask ==> (x | set) & mask == mask) by (bit_vector);
}

/// Masking options out clears them and leaves the others as they were.
pub proof fn lemma_clear(a: Flags, clear: u32, mask: u32)
    requires
        clear != 0,
        mask & clear == 0,
    ensures
        !(Flags { bits: a.bits & !clear }).has(clear),
        a.has(mask) == (Flags { bits: a.bits & !clear }).has(mask),
{
    let x = a.bits;
    assert(clear != 0 ==> (x & !clear) & clear != clear) by (bit_vector);
    assert(mask & clear == 0 ==> (x & !clear) & mask == x & mask) by (bit_vector);
}

} // verus!
