use std::sync::Arc;

use aur_depends::alpm::AlpmPkg;
use aur_depends::base::BuildPkg;
use aur_depends::cache::Cache;
use aur_depends::cb::Callback;
use aur_depends::depend::{DepModVer, Depend};
use aur_depends::pkg::{ArchVec, AurOrPkgbuild, AurPkg, Srcinfo, SrcinfoBase, SrcinfoPkg};
use aur_depends::target::Targ;
use aur_depends::text;
use aur_depends::{
    AurBase, Base, Conflict, Conflicting, DepMissing, Error, Flags, Package, PkgbuildPackages,
    Unneeded,
};

fn strings(v: &[&str]) -> Vec<String> {
    v.iter().map(|s| s.to_string()).collect()
}

fn aur_pkg(name: &str, base: &str) -> Arc<AurPkg> {
    Arc::new(AurPkg {
        name: name.to_string(),
        package_base: base.to_string(),
        version: "1-1".to_string(),
        depends: strings(&["run"]),
        make_depends: strings(&["make"]),
        check_depends: strings(&["check"]),
        provides: Vec::new(),
        conflicts: Vec::new(),
    })
}

fn srcinfo() -> Srcinfo {
    let any = |v: &[&str]| ArchVec { arch: None, vec: strings(v) };
    let on = |arch: &str, v: &[&str]| ArchVec { arch: Some(arch.to_string()), vec: strings(v) };
    let pkg = |name: &str| SrcinfoPkg {
        pkgname: name.to_string(),
        depends: vec![any(&["d"]), on("x86_64", &["d64"]), on("i686", &["d32"])],
        provides: Vec::new(),
        conflicts: Vec::new(),
    };
    Srcinfo {
        base: SrcinfoBase {
            pkgbase: "base".to_string(),
            pkgver: "2".to_string(),
            pkgrel: "3".to_string(),
            epoch: None,
            makedepends: vec![any(&["m"]), on("i686", &["m32"])],
            checkdepends: vec![any(&["c"])],
        },
        pkgs: vec![pkg("one"), pkg("two")],
    }
}

#[test]
fn flags_of_a_new_handle() {
    let flags = Flags::new();
    for on in [
        Flags::TARGET_PROVIDES,
        Flags::MISSING_PROVIDES,
        Flags::CALCULATE_MAKE,
        Flags::CHECK_DEPENDS,
        Flags::AUR,
        Flags::REPO,
        Flags::PKGBUILDS,
    ] {
        assert!(flags.contains(on));
    }
    for off in [
        Flags::NO_DEPS,
        Flags::NO_DEP_VERSION,
        Flags::NON_TARGET_PROVIDES,
        Flags::PROVIDES,
        Flags::NEEDED,
        Flags::ENABLE_DOWNGRADE,
        Flags::RESOLVE_SATISFIED_PKGBUILDS,
    ] {
        assert!(!flags.contains(off));
    }
    assert_eq!(flags, Flags::default());
    assert_eq!(Flags::aur_only(), flags & !Flags::REPO);
    assert!((flags | Flags::NEEDED).contains(Flags::NEEDED));
}

#[test]
fn targets_are_parsed_and_written() {
    let plain = Targ::parse("foo");
    assert_eq!(plain, Targ::new(None, "foo".to_string()));
    assert_eq!(plain.text(), "foo");
    let full = Targ::parse("core/foo>1");
    assert_eq!(full, Targ::new(Some("core".to_string()), "foo>1".to_string()));
    assert_eq!(full.text(), "core/foo>1");
    assert_eq!(Targ::parse("a/b/c").pkg, "b");
}

#[test]
fn version_parts_of_strings() {
    assert_eq!(text::without_ver("foo>=1"), "foo");
    assert_eq!(text::without_ver("foo"), "foo");
    assert_eq!(text::until_dash("1.0-2"), "1.0");
    assert_eq!(text::until_dash("1.0"), "1.0");
    assert!(text::is_ver_char('<') && text::is_ver_char('=') && text::is_ver_char('>'));
    assert!(!text::is_ver_char('-'));
}

#[test]
fn names_are_sorted() {
    assert_eq!(text::sort_names(strings(&["b", "a", "ab", "b"])), strings(&["a", "ab", "b", "b"]));
    assert_eq!(text::sort_dedup(strings(&["b", "a", "b", "a"])), strings(&["a", "b"]));
    assert!(text::str_less("a", "aa"));
    assert!(!text::str_less("b", "aa"));
    assert!(!text::str_less("a", "a"));
}

#[test]
fn cache_holds_one_package_for_each_name() {
    let mut cache = Cache::new();
    assert!(cache.insert(aur_pkg("a", "first")));
    assert!(!cache.insert(aur_pkg("a", "second")));
    assert!(cache.insert(aur_pkg("b", "third")));
    assert_eq!(cache.len(), 2);
    assert_eq!(cache.get(&"a".to_string()).unwrap().package_base, "first");
    assert_eq!(cache.at(1).name, "b");
    assert!(cache.get(&"c".to_string()).is_none());
    assert_eq!(Cache::default().len(), 0);
}

#[test]
fn srcinfo_versions_and_packages() {
    let mut s = srcinfo();
    assert_eq!(s.version(), "2-3");
    s.base.epoch = Some("1".to_string());
    assert_eq!(s.version(), "1:2-3");
    assert_eq!(s.pkg(&"two".to_string()).unwrap().pkgname, "two");
    assert!(s.pkg(&"base".to_string()).is_none());
}

#[test]
fn needs_of_packages() {
    let s = srcinfo();
    let p = AurOrPkgbuild::Pkgbuild(&s, &s.pkgs[0]);
    assert_eq!(p.pkgbase(), "base");
    assert_eq!(p.depends(&"x86_64".to_string(), true), strings(&["m", "c", "d", "d64"]));
    assert_eq!(p.depends(&"i686".to_string(), false), strings(&["m", "m32", "d", "d32"]));
    let a = aur_pkg("a", "ab");
    let p = AurOrPkgbuild::Aur(&a);
    assert_eq!(p.pkgbase(), "ab");
    assert_eq!(p.depends(&"any".to_string(), true), strings(&["make", "check", "run"]));
    assert_eq!(p.depends(&"any".to_string(), false), strings(&["make", "run"]));
}

#[test]
fn bases_are_written() {
    let name = "p".to_string();
    let ver = "1-1".to_string();
    assert_eq!(Base::write_base(&name, &ver, &strings(&["p"])), "p-1-1");
    assert_eq!(Base::write_base(&name, &ver, &strings(&["q"])), "q-1-1");
    assert_eq!(Base::write_base(&name, &ver, &strings(&["p", "q", "r"])), "p-1-1 (p q r)");
    assert_eq!(Base::write_base(&name, &ver, &strings(&[])), "p-1-1 ()");
    assert_eq!(Base::write_base(&String::new(), &ver, &strings(&[])), "-1-1");
    assert!(Base::base_is_pkg(&name, &strings(&["p"])));
    assert!(!Base::base_is_pkg(&name, &strings(&["p", "p"])));
}

#[test]
fn bases_tell_of_their_packages() {
    let s = srcinfo();
    let base = Base::Pkgbuild(PkgbuildPackages {
        repo: "r".to_string(),
        srcinfo: &s,
        pkgs: vec![
            Package { pkg: &s.pkgs[0], make: false, target: true },
            Package { pkg: &s.pkgs[1], make: true, target: false },
        ],
        build: true,
    });
    assert_eq!(base.package_base(), "base");
    assert_eq!(base.version(), "2-3");
    assert_eq!(base.packages(), strings(&["one", "two"]));
    assert_eq!(base.package_count(), 2);
    assert!(base.make() && base.target() && base.build());
    assert_eq!(base.text(), "base-2-3 (one two)");
    assert!(matches!(base.build_pkgs()[1], BuildPkg::Pkgbuild(_, _)));
    assert!(base.build_pkgs()[0].target());

    let aur = AurBase {
        pkgs: vec![Package { pkg: aur_pkg("a", "ab"), make: false, target: false }],
        build: false,
    };
    assert_eq!(aur.package_base(), "ab");
    assert_eq!(aur.version(), "1-1");
    let base = Base::Aur(aur);
    assert!(!base.make() && !base.target() && !base.build());
    assert_eq!(base.text(), "a-1-1");
}

#[test]
fn conflicts_keep_what_says_more_than_the_name() {
    let any = Depend { name: "a".into(), depmodver: DepModVer::Any, text: "a".into() };
    let ver = Depend { name: "a".into(), depmodver: DepModVer::Lt("2".into()), text: "a<2".into() };
    let mut conflict = Conflict::new("pkg".into());
    conflict.push("a".into(), &any);
    conflict.push("b".into(), &any);
    conflict.push("a".into(), &ver);
    assert_eq!(
        conflict,
        Conflict {
            pkg: "pkg".into(),
            conflicting: vec![
                Conflicting { pkg: "a".into(), conflict: None },
                Conflicting { pkg: "b".into(), conflict: Some("a".into()) },
                Conflicting { pkg: "a".into(), conflict: Some("a<2".into()) },
            ],
        }
    );
}

#[test]
fn small_values() {
    let u = Unneeded::new("n".into(), "v".into());
    assert_eq!((u.name.as_str(), u.version.as_str()), ("n", "v"));
    let d = DepMissing::new("p".into(), "d".into());
    assert_eq!(d.copy(), d);
    assert_eq!(Error::Alpm("a".into()).text(), "a");
    assert_eq!(Error::Raur("r".into()).text(), "r");
    assert_eq!(Error::TooDeep.text(), "dependencies of pkgbuilds go too deep");
    assert!(Callback::<u8>::default().get().is_none());
    assert_eq!(Callback(Some(3u8)).get(), Some(&3));
    let p = AlpmPkg {
        name: "p".into(),
        version: "1".into(),
        depends: Vec::new(),
        conflicts: Vec::new(),
        provides: Vec::new(),
        ignore: false,
    };
    assert_eq!(p.clone(), p);
}
