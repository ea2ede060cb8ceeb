use std::cell::RefCell;
use std::collections::HashMap;
use std::sync::Arc;

use aur_depends::alpm::{Alpm, AlpmPkg, Db, Handle, PkgGroup, PkgIndex, System};
use aur_depends::cache::Cache;
use aur_depends::depend::{DepModVer, Depend, VerOrder};
use aur_depends::pkg::{ArchVec, AurPkg, Srcinfo, SrcinfoBase, SrcinfoPkg};
use aur_depends::resolve::fetch::Next;
use aur_depends::resolve::split::{RepoSource, Targets};
use aur_depends::target::Targ;
use aur_depends::{
    Actions, Base, Conflict, Flags, Group, Missing, PkgbuildRepo, Resolver, Satisfies, Updates,
};

type Provider = fn(&str, &[String]) -> usize;
type GroupPick<'a> = fn(&[Group<'a>]) -> Vec<&'a AlpmPkg>;
type Devel = fn(&str) -> bool;
type Plain<'a, A> = Resolver<'a, A, Provider, GroupPick<'a>, Devel>;

const DEPTH: usize = 100;

fn depend(s: &str) -> Depend {
    let text = s.to_string();
    let at = match s.find(|c| c == '<' || c == '=' || c == '>') {
        Some(at) => at,
        None => {
            return Depend { name: text.clone(), depmodver: DepModVer::Any, text };
        }
    };
    let name = s[..at].to_string();
    let rest = &s[at..];
    let depmodver = if let Some(v) = rest.strip_prefix(">=") {
        DepModVer::Ge(v.to_string())
    } else if let Some(v) = rest.strip_prefix("<=") {
        DepModVer::Le(v.to_string())
    } else if let Some(v) = rest.strip_prefix('>') {
        DepModVer::Gt(v.to_string())
    } else if let Some(v) = rest.strip_prefix('<') {
        DepModVer::Lt(v.to_string())
    } else {
        DepModVer::Eq(rest[1..].to_string())
    };
    Depend { name, depmodver, text }
}

fn depends(v: &[&str]) -> Vec<Depend> {
    v.iter().map(|s| depend(s)).collect()
}

fn numbers(s: &str) -> Vec<u64> {
    s.split(|c: char| !c.is_ascii_digit())
        .filter(|p| !p.is_empty())
        .map(|p| p.parse().unwrap())
        .collect()
}

fn vercmp(a: &str, b: &str) -> VerOrder {
    let (pa, ra) = a.split_once('-').map_or((a, None), |(p, r)| (p, Some(r)));
    let (pb, rb) = b.split_once('-').map_or((b, None), |(p, r)| (p, Some(r)));
    let mut x = numbers(pa);
    let mut y = numbers(pb);
    if let (Some(ra), Some(rb)) = (ra, rb) {
        x.resize(10, 0);
        y.resize(10, 0);
        x.extend(numbers(ra));
        y.extend(numbers(rb));
    }
    if x < y {
        VerOrder::Less
    } else if x > y {
        VerOrder::Greater
    } else {
        VerOrder::Equal
    }
}

fn repo_pkg(name: &str, version: &str, deps: &[&str]) -> AlpmPkg {
    AlpmPkg {
        name: name.to_string(),
        version: version.to_string(),
        depends: depends(deps),
        conflicts: Vec::new(),
        provides: Vec::new(),
        ignore: false,
    }
}

fn meets(p: &AlpmPkg, dep: &Depend) -> bool {
    let ok = |v: &str| match &dep.depmodver {
        DepModVer::Any => true,
        DepModVer::Eq(w) => vercmp(v, w) == VerOrder::Equal,
        DepModVer::Ge(w) => vercmp(v, w) != VerOrder::Less,
        DepModVer::Le(w) => vercmp(v, w) != VerOrder::Greater,
        DepModVer::Gt(w) => vercmp(v, w) == VerOrder::Greater,
        DepModVer::Lt(w) => vercmp(v, w) == VerOrder::Less,
    };
    if p.name == dep.name && ok(&p.version) {
        return true;
    }
    p.provides.iter().any(|q| {
        q.name == dep.name
            && match &q.depmodver {
                DepModVer::Eq(v) => ok(v),
                _ => matches!(dep.depmodver, DepModVer::Any),
            }
    })
}

fn find_in(dbs: &[Db], s: &str) -> Option<PkgIndex> {
    let dep = depend(s);
    for (i, db) in dbs.iter().enumerate() {
        if let Some(j) = db.pkgs.iter().position(|p| p.name == dep.name && meets(p, &dep)) {
            return Some((i, j));
        }
        if let Some(j) = db.pkgs.iter().position(|p| meets(p, &dep)) {
            return Some((i, j));
        }
    }
    None
}

fn handle(system: System) -> impl Alpm {
    let local = system.localdb.clone();
    let dbs = Arc::new(system.syncdbs.clone());
    let (d1, d2, d3) = (dbs.clone(), dbs.clone(), dbs);
    Handle::new(
        system,
        |s: &str| depend(s),
        |a: &str, b: &str| vercmp(a, b),
        move |s: &str| {
            let dep = depend(s);
            local.iter().any(|p| meets(p, &dep))
        },
        move |s: &str| find_in(&d1, s),
        move |s: &str| find_in(&d2, s),
        move |t: &Targ| match &t.repo {
            None => find_in(&d3, &t.pkg),
            Some(repo) => {
                let i = d3.iter().position(|db| db.name == *repo)?;
                let (_, j) = find_in(&d3[i..i + 1], &t.pkg)?;
                Some((i, j))
            }
        },
    )
}

fn db(name: &str, pkgs: Vec<AlpmPkg>) -> Db {
    Db { name: name.to_string(), pkgs, groups: Vec::new() }
}

// The sync databases, the installed packages and the AUR below are made up. Where a test counts what
// comes out, the number follows from the lists written here, which were chosen to give it: it says
// nothing of how many packages a real repository or the real AUR would bring.
fn system() -> System {
    let core = db(
        "core",
        vec![
            repo_pkg("glibc", "2.30-3", &[]),
            repo_pkg("pacman", "5.2.1-4", &["glibc"]),
            repo_pkg("pacman-contrib", "1.3.0-1", &["pacman"]),
            repo_pkg("libnsl", "1.2.0-2", &[]),
            repo_pkg("libedit", "20191231_3.1-1", &[]),
            repo_pkg("libev", "4.31-1", &[]),
        ],
    );
    let mut extra = vec![
        repo_pkg("git", "2.25.0-1", &["perl-error", "perl-mailtools"]),
        repo_pkg("perl-error", "0.17028-2", &[]),
        repo_pkg("perl-mailtools", "2.21-2", &["perl-timedate"]),
        repo_pkg("perl-timedate", "2.31-1", &[]),
        repo_pkg("xterm", "353-1", &["libnsl"]),
        repo_pkg("llvm-libs", "9.0.1-1", &["libedit"]),
        repo_pkg("rust", "1:1.41.0-1", &["llvm-libs"]),
        repo_pkg("python", "3.8.1-1", &["libnsl"]),
        repo_pkg("python-appdirs", "1.4.3-5", &["python"]),
        repo_pkg("python-packaging", "20.1-1", &["python-pyparsing", "python-six"]),
        repo_pkg("python-pyparsing", "2.4.6-1", &["python"]),
        repo_pkg("python-setuptools", "1:45.1.0-1", &["python-appdirs", "python-packaging"]),
        repo_pkg("python-six", "1.14.0-1", &["python"]),
        repo_pkg("meson", "0.53.1-2", &["ninja", "python-setuptools"]),
        repo_pkg("ninja", "1.9.0-1", &[]),
    ];
    extra.push(repo_pkg("go", "2:1.13.7-1", &[]));
    let mut community = vec![
        repo_pkg("0ad", "a23.1-6", &[]),
        repo_pkg("i3-wm", "4.18-1", &["libev"]),
        repo_pkg("jq", "1.6-2", &["oniguruma"]),
        repo_pkg("oniguruma", "6.9.4-1", &[]),
    ];
    for i in 0..200 {
        community.push(repo_pkg(&format!("lib{}", i), "1-1", &[]));
    }
    let mut local = vec![
        repo_pkg("expac", "10-2", &[]),
        repo_pkg("pacman", "5.2.1-4", &[]),
        repo_pkg("pacaur", "999.0.0-1", &[]),
        repo_pkg("version_equal", "1.0.0-1", &[]),
        repo_pkg("version_newer", "1.0.0-1", &[]),
        repo_pkg("version_older", "1.0.0-1", &[]),
    ];
    local[0].conflicts = depends(&[]);
    System {
        localdb: local,
        syncdbs: vec![
            core,
            db("extra", extra),
            db("community", community),
            db("multilib", Vec::new()),
        ],
        architectures: vec!["x86_64".to_string()],
        assume_installed: depends(&["assume-dep1", "i3-wm"]),
    }
}

#[derive(Clone)]
struct Aur {
    pkgs: Vec<AurPkg>,
}

fn strings(v: &[&str]) -> Vec<String> {
    v.iter().map(|s| s.to_string()).collect()
}

fn aur_pkg(name: &str, version: &str, depends: &[&str], make: &[&str]) -> AurPkg {
    AurPkg {
        name: name.to_string(),
        package_base: name.to_string(),
        version: version.to_string(),
        depends: strings(depends),
        make_depends: strings(make),
        check_depends: Vec::new(),
        provides: Vec::new(),
        conflicts: Vec::new(),
    }
}

fn with(mut p: AurPkg, provides: &[&str], conflicts: &[&str]) -> AurPkg {
    p.provides = strings(provides);
    p.conflicts = strings(conflicts);
    p
}

// Made up, as are the numbers that the lists of libraries below lead to.
fn aur() -> Aur {
    let libs: Vec<String> = (0..200).map(|i| format!("lib{}", i)).collect();
    let lib = |from: usize, to: usize| -> Vec<&str> {
        libs[from..to].iter().map(|s| s.as_str()).collect()
    };
    Aur {
        pkgs: vec![
            aur_pkg("yay", "9.4.4-1", &["pacman>5", "git"], &["go"]),
            with(
                aur_pkg("yay-bin", "9.4.4-1", &["pacman>5", "git"], &["go"]),
                &["yay"],
                &["yay"],
            ),
            with(
                aur_pkg("yay-git", "9.4.4.r0-1", &["pacman>5", "git"], &["go"]),
                &["yay"],
                &["yay"],
            ),
            aur_pkg("auracle-git", "0-1", &["pacman>5"], &["meson", "git"]),
            aur_pkg("pacaur", "4.8.6-1", &["auracle-git", "expac", "git", "jq"], &[]),
            aur_pkg("wants-pacaur", "1-1", &["pacaur"], &[]),
            aur_pkg("spotify", "1:1.1.10-1", &["libev"], &[]),
            aur_pkg("xterm", "353-2", &[], &[]),
            with(aur_pkg("pacman-git", "5.2.1.r0-1", &[], &[]), &["pacman=5.2.1"], &["pacman"]),
            with(
                aur_pkg("perl-mailtools-git", "2.21-3", &["perl-timedate"], &[]),
                &["perl-mailtools"],
                &["perl-mailtools"],
            ),
            with(
                aur_pkg("perl-timedate-git", "2.31-3", &[], &[]),
                &["perl-timedate"],
                &["perl-timedate"],
            ),
            aur_pkg("assume-test", "1-1", &["assume-dep1", "assume-dep2"], &[]),
            aur_pkg("assume-dep1", "1-1", &[], &[]),
            aur_pkg("assume-dep2", "1-1", &["i3-wm", "libev"], &[]),
            aur_pkg("a", "1-1", &["b>1"], &[]),
            aur_pkg("b", "1", &[], &[]),
            aur_pkg("version_equal", "1.0.0-1", &[], &[]),
            aur_pkg("version_newer", "100.0.0-1", &[], &[]),
            aur_pkg("version_older", "0.0.0-1", &[], &[]),
            aur_pkg("repo_version_test", "1-1", &["pacman-contrib>100"], &[]),
            aur_pkg("satisfied_versioned_repo_dep", "1-1", &["pacman>100"], &[]),
            aur_pkg("cyclic", "1-1", &["cyclic"], &[]),
            aur_pkg("systemd-git", "245-1", &["systemd-libs-git"], &[]),
            aur_pkg("systemd-libs-git", "245-1", &["systemd-git"], &[]),
            aur_pkg("ros-melodic-desktop-full", "1.4.1-1", &lib(40, 50), &lib(0, 40)),
            aur_pkg("discord-canary", "0.0.105-1", &["libc++", "libcord"], &lib(0, 9)),
            aur_pkg("libc++", "9-1", &lib(9, 60), &[]),
            aur_pkg("libcord", "9-1", &lib(60, 102), &[]),
        ],
    }
}

impl Aur {
    fn info(&self, names: &[String]) -> Vec<Arc<AurPkg>> {
        let by_name: HashMap<&str, &AurPkg> =
            self.pkgs.iter().map(|p| (p.name.as_str(), p)).collect();
        names
            .iter()
            .filter_map(|n| by_name.get(n.as_str()))
            .map(|p| Arc::new((*p).clone()))
            .collect()
    }

    fn search(&self, names: &[String]) -> Vec<String> {
        let mut found = Vec::new();
        for n in names {
            for p in &self.pkgs {
                if p.name == *n || p.provides.iter().any(|s| depend(s).name == *n) {
                    found.push(p.name.clone());
                }
            }
        }
        found
    }
}

fn look_up<'a, A, P, G, D>(
    resolver: &mut Resolver<'a, A, P, G, D>,
    targets: &Targets<'a>,
    aur: &Aur,
) -> bool
where
    A: Alpm,
    P: Fn(&str, &[String]) -> usize,
    G: Fn(&[Group<'a>]) -> Vec<&'a AlpmPkg>,
    D: Fn(&str) -> bool,
{
    let depth = resolver.pkgbuild_depth();
    let mut next = resolver.cache_targets(targets, depth);
    loop {
        next = match next {
            Next::Info { pkgs, queries } => {
                let info = aur.info(&queries);
                resolver.on_info(pkgs, info, depth)
            }
            Next::Search { pkgs, found, queries } => {
                let names = aur.search(&queries);
                resolver.on_search(pkgs, found, names)
            }
            Next::ProvidesInfo { pkgs, found, queries } => {
                let info = aur.info(&queries);
                resolver.on_provides_info(pkgs, found, info, depth)
            }
            Next::Done => return true,
            Next::TooDeep => return false,
        };
    }
}

fn targs(v: &[&str]) -> Vec<Targ> {
    v.iter().map(|s| Targ::parse(s)).collect()
}

fn resolve_with<'a, A, P, G, D>(
    mut resolver: Resolver<'a, A, P, G, D>,
    aur: &Aur,
    deps: &[&str],
    make_deps: &[&str],
    is_target: bool,
) -> Actions<'a, A>
where
    A: Alpm,
    P: Fn(&str, &[String]) -> usize,
    G: Fn(&[Group<'a>]) -> Vec<&'a AlpmPkg>,
    D: Fn(&str) -> bool,
{
    let make_deps = targs(make_deps);
    let targets = resolver.split_targets(&targs(deps), &make_deps, is_target);
    assert!(look_up(&mut resolver, &targets, aur));
    resolver.finish(&targets, &make_deps, is_target).0
}

fn custom() -> Srcinfo {
    let pkg = |name: &str, depends: &[&str]| SrcinfoPkg {
        pkgname: name.to_string(),
        depends: vec![ArchVec { arch: None, vec: strings(depends) }],
        provides: Vec::new(),
        conflicts: Vec::new(),
    };
    Srcinfo {
        base: SrcinfoBase {
            pkgbase: "custom".to_string(),
            pkgver: "1".to_string(),
            pkgrel: "1".to_string(),
            epoch: None,
            makedepends: vec![ArchVec { arch: None, vec: strings(&["rust"]) }],
            checkdepends: Vec::new(),
        },
        pkgs: vec![
            pkg("custom", &["c1", "c2", "c3"]),
            pkg("c1", &[]),
            pkg("c2", &["c3"]),
            pkg("c3", &[]),
        ],
    }
}

struct TestActions {
    build: Vec<String>,
    install: Vec<String>,
    missing: Vec<Vec<String>>,
    make: usize,
    duplicates: Vec<String>,
    targets: Vec<String>,
}

fn summary<A: Alpm>(actions: Actions<'_, A>) -> TestActions {
    let aur = actions.iter_aur_pkgs();
    let pkgbuilds = actions.iter_pkgbuilds();
    let mut build: Vec<String> = aur.iter().map(|p| p.pkg.name.clone()).collect();
    build.extend(pkgbuilds.iter().map(|p| p.1.pkg.pkgname.clone()));
    let mut install: Vec<String> = actions.install.iter().map(|p| p.pkg.name.clone()).collect();
    build.sort();
    install.sort();
    let make = actions.install.iter().filter(|p| p.make).count()
        + aur.iter().filter(|p| p.make).count()
        + pkgbuilds.iter().filter(|p| p.1.make).count();
    let mut targets: Vec<String> =
        aur.iter().filter(|p| p.target).map(|p| p.pkg.name.clone()).collect();
    targets
        .extend(pkgbuilds.iter().filter(|p| p.1.target).map(|p| p.1.pkg.pkgname.clone()));
    let duplicates = actions.duplicate_targets();
    let missing = actions
        .missing
        .into_iter()
        .map(|m: Missing| m.stack.into_iter().map(|s| s.pkg).chain(Some(m.dep)).collect())
        .collect();
    TestActions { build, install, missing, make, duplicates, targets }
}

fn resolve(pkgs: &[&str], flags: Flags) -> TestActions {
    let alpm = handle(system());
    let srcinfo = custom();
    let repo = vec![PkgbuildRepo { name: "my_repo".to_string(), pkgs: vec![&srcinfo] }];
    let resolver = Plain::new(&alpm, Cache::new(), flags)
        .pkgbuild_repos(repo)
        .aur_namespace(true)
        .provider_callback(|_: &str, pkgs: &[String]| {
            pkgs.iter().position(|pkg| pkg == "yay-bin").unwrap_or(0)
        });
    summary(resolve_with(resolver, &aur(), pkgs, &[], true))
}

#[test]
fn test_yay() {
    let TestActions { install, build, make, .. } = resolve(&["yay"], Flags::new());

    assert_eq!(build, vec!["yay-bin"]);
    assert_eq!(install, vec!["git", "go", "perl-error", "perl-mailtools", "perl-timedate"]);
    assert_eq!(make, 1);
}

#[test]
fn test_yay_needed() {
    let TestActions { install, build, .. } = resolve(&["yay"], Flags::new() | Flags::NEEDED);

    assert_eq!(build, vec!["yay-bin"]);
    assert_eq!(install, vec!["git", "go", "perl-error", "perl-mailtools", "perl-timedate"]);
}

#[test]
fn test_yay_no_deps() {
    let TestActions { install, build, .. } = resolve(&["yay"], Flags::new() | Flags::NO_DEPS);

    assert_eq!(build, vec!["yay-bin"]);
    assert_eq!(install, Vec::<String>::new());
}

#[test]
fn test_aur_yay_no_deps() {
    let TestActions { install, build, .. } = resolve(&["aur/yay"], Flags::new() | Flags::NO_DEPS);

    assert_eq!(build, vec!["yay-bin"]);
    assert_eq!(install, Vec::<String>::new());
}

#[test]
fn test_core_yay_no_deps() {
    let TestActions { install, build, .. } = resolve(&["core/yay"], Flags::new() | Flags::NO_DEPS);

    assert_eq!(build, Vec::<String>::new());
    assert_eq!(install, Vec::<String>::new());
}

#[test]
fn test_core_glibc_no_deps() {
    let TestActions { install, build, .. } =
        resolve(&["core/glibc"], Flags::new() | Flags::NO_DEPS);

    assert_eq!(build, Vec::<String>::new());
    assert_eq!(install, vec!["glibc"]);
}

#[test]
fn test_aur_glibc_no_deps() {
    let TestActions { install, build, .. } = resolve(&["core/yay"], Flags::new() | Flags::NO_DEPS);

    assert_eq!(build, Vec::<String>::new());
    assert_eq!(install, Vec::<String>::new());
}

#[test]
fn test_extra_glibc_no_deps() {
    let TestActions { install, build, .. } = resolve(&["core/yay"], Flags::new() | Flags::NO_DEPS);

    assert_eq!(build, Vec::<String>::new());
    assert_eq!(install, Vec::<String>::new());
}

#[test]
fn test_yay_no_provides() {
    let TestActions { install, build, .. } =
        resolve(&["yay"], Flags::new() & !Flags::TARGET_PROVIDES);

    assert_eq!(build, vec!["yay"]);
    assert_eq!(install, vec!["git", "go", "perl-error", "perl-mailtools", "perl-timedate"]);
}

// The target lists this many make dependencies in the made-up AUR.
#[test]
fn test_make_only() {
    let TestActions { make, .. } = resolve(
        &["ros-melodic-desktop-full"],
        Flags::new() & !Flags::TARGET_PROVIDES & !Flags::MISSING_PROVIDES,
    );
    assert_eq!(make, 40);
}

#[test]
fn test_cache_only() {
    let alpm = handle(system());
    let mut resolver = Plain::new(&alpm, Cache::new(), Flags::new());
    let targets = resolver.split_targets(&targs(&["ros-melodic-desktop-full"]), &targs(&[]), true);
    assert!(look_up(&mut resolver, &targets, &aur()));
    assert!(resolver.get_cache().get(&"ros-melodic-desktop-full".to_string()).is_some());
}

#[test]
fn test_pacaur() {
    let TestActions { install, build, .. } = resolve(&["pacaur"], Flags::new());
    assert_eq!(build, vec!["auracle-git", "pacaur"]);
    assert_eq!(
        install,
        vec![
            "git",
            "jq",
            "libnsl",
            "meson",
            "ninja",
            "oniguruma",
            "perl-error",
            "perl-mailtools",
            "perl-timedate",
            "python",
            "python-appdirs",
            "python-packaging",
            "python-pyparsing",
            "python-setuptools",
            "python-six"
        ]
    );
}

#[test]
fn test_wants_pacaur() {
    let TestActions { build, .. } = resolve(&["wants-pacaur"], Flags::new());
    assert_eq!(build, vec!["wants-pacaur"]);
}

#[test]
fn test_wants_pacaur_force_deps() {
    let TestActions { build, .. } =
        resolve(&["wants-pacaur"], Flags::new() | Flags::RESOLVE_SATISFIED_PKGBUILDS);
    assert_eq!(build, vec!["auracle-git", "pacaur", "wants-pacaur"]);
}

#[test]
fn test_pkgbuild() {
    let TestActions { install, build, .. } = resolve(&["custom"], Flags::new());
    assert_eq!(build, vec!["c1", "c2", "c3", "custom"]);
    assert_eq!(install, vec!["libedit", "llvm-libs", "rust"]);
}

#[test]
fn test_assume() {
    let TestActions { install, build, .. } = resolve(&["assume-test"], Flags::new());
    assert_eq!(build, vec!["assume-dep2", "assume-test"]);
    assert_eq!(install, vec!["libev"]);
}

#[test]
fn test_pacaur_needed() {
    let TestActions { install, build, .. } = resolve(&["pacaur"], Flags::new() | Flags::NEEDED);
    assert_eq!(build, Vec::<String>::new());
    assert_eq!(install, Vec::<String>::new());
}

#[test]
fn test_many() {
    let TestActions { install, build, .. } = resolve(
        &["yay", "pacaur", "pacman", "glibc", "0ad", "spotify"],
        Flags::new() | Flags::NO_DEPS,
    );

    assert_eq!(build, vec!["pacaur", "spotify", "yay-bin"]);
    assert_eq!(install, vec!["0ad", "glibc", "pacman"]);
}

#[test]
fn test_many_needed() {
    let TestActions { install, build, .. } = resolve(
        &["yay", "pacaur", "pacman", "glibc", "0ad", "spotify"],
        Flags::new() | Flags::NO_DEPS | Flags::NEEDED,
    );

    assert_eq!(build, vec!["spotify", "yay-bin"]);
    assert_eq!(install, vec!["0ad", "glibc"]);
}

#[test]
fn test_override_dep_via_target() {
    let TestActions { install, build, .. } = resolve(&["perl-mailtools"], Flags::new());
    assert_eq!(install, ["perl-mailtools", "perl-timedate"]);
    assert!(build.is_empty());

    let TestActions { install, build, .. } = resolve(&["perl-mailtools-git"], Flags::new());
    assert_eq!(install, ["perl-timedate"]);
    assert_eq!(build, ["perl-mailtools-git"]);

    let TestActions { install, build, .. } = resolve(&["perl-timedate-git"], Flags::new());
    assert!(install.is_empty());
    assert_eq!(build, ["perl-timedate-git"]);

    let TestActions { install, build, .. } =
        resolve(&["perl-timedate-git", "perl-mailtools-git"], Flags::new());
    assert!(install.is_empty());
    assert_eq!(build, ["perl-mailtools-git", "perl-timedate-git"]);

    let TestActions { install, build, .. } =
        resolve(&["perl-mailtools-git", "perl-timedate-git"], Flags::new());
    assert!(install.is_empty());
    assert_eq!(build, ["perl-mailtools-git", "perl-timedate-git"]);
}

#[test]
fn test_a() {
    let TestActions { missing, .. } = resolve(&["a"], Flags::new());

    assert_eq!(missing, vec![vec!["a", "b>1"]]);
}

#[test]
fn test_a_no_ver() {
    let TestActions { build, .. } = resolve(&["a"], Flags::new() | Flags::NO_DEP_VERSION);

    assert_eq!(build, vec!["a", "b"]);
}

// The numbers are those of the lists in the made-up AUR.
#[test]
fn test_discord() {
    let TestActions { make, install, build, .. } = resolve(&["discord-canary"], Flags::new());

    assert_eq!(build.len(), 3);
    assert_eq!(install.len(), 89 + 13);
    assert_eq!(make, 9);
}

#[test]
fn test_aur_only() {
    let TestActions { build, install, .. } =
        resolve(&["xterm", "yay"], Flags::aur_only() | Flags::NO_DEPS);
    assert_eq!(build, vec!["xterm", "yay-bin"]);
    assert_eq!(install, Vec::<String>::new());

    let TestActions { install, .. } = resolve(&["pacman"], Flags::aur_only() | Flags::NO_DEPS);
    assert_eq!(install, Vec::<String>::new());
}

#[test]
fn test_repo_only() {
    let TestActions { build, install, .. } =
        resolve(&["xterm", "yay"], (Flags::new() | Flags::NO_DEPS) & !Flags::AUR);
    assert_eq!(install, vec!["xterm"]);
    assert_eq!(build, Vec::<String>::new());

    let TestActions { install, build, .. } =
        resolve(&["pacman"], (Flags::new() | Flags::NO_DEPS) & !Flags::AUR);
    assert_eq!(install, vec!["pacman"]);
    assert_eq!(build, Vec::<String>::new());
}

#[test]
fn test_dups() {
    let TestActions { duplicates, .. } = resolve(&["extra/xterm", "aur/xterm"], Flags::new());
    assert_eq!(duplicates.len(), 1);
}

#[test]
fn test_inner_conflicts() {
    let alpm = handle(system());
    let resolver = Plain::new(&alpm, Cache::new(), Flags::new());
    let actions = resolve_with(resolver, &aur(), &["yay", "yay-git", "yay-bin"], &[], true);

    let mut conflict1 = Conflict::new("yay".into());
    conflict1.push("yay-git".into(), &depend("yay"));
    conflict1.push("yay-bin".into(), &depend("yay"));
    let mut conflict2 = Conflict::new("yay-bin".into());
    conflict2.push("yay-git".into(), &depend("yay"));
    let mut conflict3 = Conflict::new("yay-git".into());
    conflict3.push("yay-bin".into(), &depend("yay"));

    assert_eq!(actions.calculate_inner_conflicts(true), vec![conflict1, conflict2, conflict3]);
}

#[test]
fn test_conflicts() {
    let alpm = handle(system());
    let resolver = Plain::new(&alpm, Cache::new(), Flags::new());
    let actions = resolve_with(resolver, &aur(), &["pacman-git"], &[], true);

    let mut conflict = Conflict::new("pacman-git".into());
    conflict.push("pacman".into(), &depend("pacman"));

    assert_eq!(actions.calculate_conflicts(true), vec![conflict]);
}

fn updates<'a, A: Alpm>(
    alpm: &'a A,
    flags: Flags,
    repos: Vec<PkgbuildRepo<'a>>,
    local: Option<&Vec<String>>,
) -> Updates<'a> {
    let mut resolver = Plain::new(alpm, Cache::new(), flags).pkgbuild_repos(repos);
    let targets = resolver.update_targets(local);
    let names: Vec<String> = targets.aur.iter().map(|p| p.name.clone()).collect();
    let info = aur().info(&names);
    resolver.cache_pkgs(&info);
    resolver.updates(&targets)
}

fn remote_names(u: &Updates<'_>) -> Vec<String> {
    u.aur_updates.iter().map(|p| p.remote.name.clone()).collect()
}

#[test]
fn test_aur_updates() {
    let alpm = handle(system());
    let pkgs = updates(&alpm, Flags::new(), Vec::new(), None);
    assert_eq!(remote_names(&pkgs), vec!["version_newer"]);
}

#[test]
fn test_aur_updates_enable_downgrade() {
    let alpm = handle(system());
    let pkgs = updates(&alpm, Flags::new() | Flags::ENABLE_DOWNGRADE, Vec::new(), None);
    assert_eq!(remote_names(&pkgs), vec!["pacaur", "version_newer", "version_older"]);
}

#[test]
fn test_repo_nover() {
    let TestActions { install, .. } = resolve(&["repo_version_test"], Flags::new());
    assert_eq!(install, Vec::<String>::new());

    let TestActions { install, .. } =
        resolve(&["repo_version_test"], Flags::new() | Flags::NO_DEP_VERSION);
    assert_eq!(install, vec!["pacman-contrib"]);
}

#[test]
fn test_satisfied_versioned_repo_dep() {
    let TestActions { missing, .. } = resolve(&["satisfied_versioned_repo_dep"], Flags::new());
    assert_eq!(missing, vec![vec!["satisfied_versioned_repo_dep", "pacman>100"]]);

    let TestActions { missing, .. } =
        resolve(&["satisfied_versioned_repo_dep"], Flags::new() | Flags::NO_DEP_VERSION);
    assert_eq!(missing, Vec::<Vec<String>>::new());
}

#[test]
fn test_satisfied_versioned_repo_dep_nover() {
    let TestActions { build, install, .. } =
        resolve(&["satisfied_versioned_repo_dep"], Flags::new() | Flags::NO_DEP_VERSION);
    assert_eq!(build, vec!["satisfied_versioned_repo_dep"]);
    assert!(install.is_empty());

    let TestActions { missing, .. } =
        resolve(&["satisfied_versioned_repo_dep"], Flags::new() | Flags::NO_DEP_VERSION);
    assert_eq!(missing, Vec::<Vec<String>>::new());
}

#[test]
fn test_cyclic() {
    let TestActions { .. } = resolve(&["cyclic"], Flags::new());
}

#[test]
fn test_cyclic2() {
    let TestActions { .. } = resolve(&["systemd-git"], Flags::new());
}

#[test]
fn test_resolve_targets() {
    let alpm = handle(system());
    let flags = Flags::new() & !Flags::TARGET_PROVIDES & !Flags::MISSING_PROVIDES;
    let resolver = Plain::new(&alpm, Cache::new(), flags)
        .provider_callback(|_: &str, _: &[String]| 0usize);
    let actions = resolve_with(resolver, &aur(), &["ros-melodic-desktop-full"], &[], true);

    assert!(actions.missing.is_empty());
    assert!(actions.unneeded.is_empty());
    assert!(actions.calculate_conflicts(true).is_empty());
    assert!(actions.calculate_inner_conflicts(true).is_empty());
    assert!(actions.duplicate_targets().is_empty());
    assert_eq!(actions.iter_build_pkgs().len(), 1);
    assert_eq!(actions.install.len(), 50);
}

#[test]
fn test_target_flags() {
    let TestActions { targets, .. } = resolve(&["discord-canary"], Flags::new());
    assert_eq!(targets, vec!["discord-canary"]);
}

fn small() -> System {
    let mut base = db(
        "core",
        vec![
            repo_pkg("one", "1-1", &["two"]),
            repo_pkg("two", "1-1", &["one"]),
            repo_pkg("broken", "1-1", &["nowhere", "two"]),
            repo_pkg("old", "2-1", &[]),
        ],
    );
    base.groups.push(PkgGroup {
        name: "all".to_string(),
        packages: vec![repo_pkg("one", "1-1", &["two"]), repo_pkg("old", "2-1", &[])],
    });
    let other = db("extra", vec![repo_pkg("one", "2-1", &[])]);
    System {
        localdb: vec![repo_pkg("old", "2-1", &[]), repo_pkg("made", "3-1", &[])],
        syncdbs: vec![base, other],
        architectures: vec!["x86_64".to_string()],
        assume_installed: Vec::new(),
    }
}

fn names<A: Alpm>(actions: &Actions<'_, A>) -> (Vec<String>, Vec<String>) {
    (
        actions.iter_build_pkgs().iter().map(|p| p.name().clone()).collect(),
        actions.install.iter().map(|p| p.pkg.name.clone()).collect(),
    )
}

#[test]
fn cyclic_repo_packages_are_installed_once() {
    let alpm = handle(small());
    let resolver = Plain::new(&alpm, Cache::new(), Flags::new());
    let actions = resolve_with(resolver, &Aur { pkgs: Vec::new() }, &["one", "two"], &[], true);
    let (build, install) = names(&actions);
    assert!(build.is_empty());
    assert_eq!(install, vec!["two", "one"]);
    assert!(actions.install[1].target);
    assert!(actions.install[0].target);
    assert!(!actions.install[0].make && !actions.install[1].make);
    assert!(actions.missing.is_empty());
}

#[test]
fn missing_repo_dependency_has_its_path() {
    let alpm = handle(small());
    let resolver = Plain::new(&alpm, Cache::new(), Flags::new());
    let aur = Aur { pkgs: vec![aur_pkg("top", "1-1", &["broken"], &[])] };
    let actions = resolve_with(resolver, &aur, &["top"], &[], true);
    assert_eq!(actions.missing.len(), 1);
    assert_eq!(actions.missing[0].dep, "nowhere");
    let path: Vec<(&str, &str)> =
        actions.missing[0].stack.iter().map(|s| (s.pkg.as_str(), s.dep.as_str())).collect();
    assert_eq!(path, vec![("top", "top"), ("broken", "broken")]);
    let (build, install) = names(&actions);
    assert_eq!(build, vec!["top"]);
    assert_eq!(install, vec!["one", "two", "broken"]);
}

#[test]
fn groups_are_installed_whole() {
    let alpm = handle(small());
    let resolver = Plain::new(&alpm, Cache::new(), Flags::new() | Flags::NO_DEPS);
    let actions = resolve_with(resolver, &Aur { pkgs: Vec::new() }, &["all"], &[], true);
    assert_eq!(names(&actions).1, vec!["one", "old"]);
}

#[test]
fn group_callback_picks() {
    let alpm = handle(small());
    let resolver = Plain::new(&alpm, Cache::new(), Flags::new() | Flags::NO_DEPS).group_callback(
        |groups| {
            assert_eq!(groups.len(), 1);
            assert_eq!(groups[0].db.name, "core");
            vec![&groups[0].group.packages[1]]
        },
    );
    let actions = resolve_with(resolver, &Aur { pkgs: Vec::new() }, &["core/all"], &[], true);
    assert_eq!(names(&actions).1, vec!["old"]);
}

#[test]
fn group_is_no_dependency() {
    let alpm = handle(small());
    let resolver = Plain::new(&alpm, Cache::new(), Flags::new());
    let actions = resolve_with(resolver, &Aur { pkgs: Vec::new() }, &["all"], &[], false);
    assert!(actions.install.is_empty());
    assert_eq!(actions.missing.len(), 1);
    assert_eq!(actions.missing[0].dep, "all");
}

#[test]
fn targets_are_looked_for_where_they_say() {
    let alpm = handle(small());
    let srcinfo = custom();
    let repo = vec![PkgbuildRepo { name: "my_repo".to_string(), pkgs: vec![&srcinfo] }];
    let resolver = Plain::new(&alpm, Cache::new(), Flags::new())
        .pkgbuild_repos(repo)
        .custom_aur_namespace(Some("land".to_string()));
    let at = |s: &str| resolver.where_is_target(&Targ::parse(s));
    assert_eq!(at("extra/one"), RepoSource::Repo);
    assert_eq!(at("my_repo/custom"), RepoSource::Pkgbuild);
    assert_eq!(at("land/x"), RepoSource::Aur);
    assert_eq!(at("aur/x"), RepoSource::Missing);
    assert_eq!(at("x"), RepoSource::Unspecified);
}

#[test]
fn aur_namespace_goes_before_a_repo_of_that_name() {
    let mut sys = small();
    sys.syncdbs.push(db("aur", vec![repo_pkg("foo", "1-1", &[])]));
    let alpm = handle(sys);
    let aur = Aur { pkgs: vec![aur_pkg("foo", "2-1", &[], &[])] };
    let resolver = Plain::new(&alpm, Cache::new(), Flags::new());
    let actions = resolve_with(resolver, &aur, &["aur/foo"], &[], true);
    assert_eq!(names(&actions), (Vec::new(), strings(&["foo"])));
    let resolver = Plain::new(&alpm, Cache::new(), Flags::new()).aur_namespace(true);
    let actions = resolve_with(resolver, &aur, &["aur/foo"], &[], true);
    assert_eq!(names(&actions), (strings(&["foo"]), Vec::new()));
}

#[test]
fn provides_of_non_targets_are_searched_for() {
    let alpm = handle(small());
    let flags = Flags::new() & !Flags::TARGET_PROVIDES & !Flags::MISSING_PROVIDES;
    for (flags, search) in [(flags, false), (flags | Flags::NON_TARGET_PROVIDES, true)] {
        let mut resolver = Plain::new(&alpm, Cache::new(), flags);
        let targets = resolver.split_targets(&targs(&["t"]), &targs(&[]), true);
        let pkgs = match resolver.cache_targets(&targets, DEPTH) {
            Next::Info { pkgs, .. } => pkgs,
            other => panic!("unexpected {:?}", other),
        };
        let next = resolver.on_info(pkgs, vec![Arc::new(aur_pkg("t", "1", &["d"], &[]))], DEPTH);
        assert_eq!(matches!(next, Next::Search { .. }), search);
        assert_eq!(matches!(next, Next::Info { .. }), !search);
    }
}

#[test]
fn split_tells_sources_apart() {
    let alpm = handle(small());
    let srcinfo = custom();
    let repo = vec![PkgbuildRepo { name: "my_repo".to_string(), pkgs: vec![&srcinfo] }];
    let mut resolver =
        Plain::new(&alpm, Cache::new(), Flags::new()).pkgbuild_repos(repo).aur_namespace(true);
    let t = resolver.split_targets(
        &targs(&["extra/one", "c1", "aur/one", "nope/one", "other"]),
        &targs(&["old"]),
        true,
    );
    assert_eq!(t.repo.len(), 2);
    assert_eq!(t.repo[0].1.version, "2-1");
    assert_eq!(t.repo[1].1.name, "old");
    assert_eq!(t.pkgbuild, targs(&["c1"]));
    assert_eq!(t.aur, vec!["one", "other"]);
    let actions = resolver.finish(&t, &targs(&["old"]), true).0;
    let missing: Vec<&str> = actions.missing.iter().map(|m| m.dep.as_str()).collect();
    assert_eq!(missing, vec!["nope/one", "rust", "one", "other"]);
    assert!(actions.missing[0].stack.is_empty());
}

#[test]
fn needed_targets_are_unneeded() {
    let alpm = handle(small());
    let aur = Aur { pkgs: vec![aur_pkg("made", "3-1", &[], &[]), aur_pkg("made2", "1-1", &[], &[])] };
    let resolver = Plain::new(&alpm, Cache::new(), Flags::new() | Flags::NEEDED);
    let actions = resolve_with(resolver, &aur, &["made", "core/old", "made2"], &[], true);
    let unneeded: Vec<(&str, &str)> =
        actions.unneeded.iter().map(|u| (u.name.as_str(), u.version.as_str())).collect();
    assert_eq!(unneeded, vec![("core/old", "2-1"), ("made", "3-1")]);
    assert_eq!(names(&actions).0, vec!["made2"]);
}

#[test]
fn devel_targets_are_always_built() {
    let alpm = handle(small());
    let aur = Aur { pkgs: vec![aur_pkg("made", "3-1", &[], &[])] };
    let resolver = Plain::new(&alpm, Cache::new(), Flags::new() | Flags::NEEDED)
        .is_devel(|name: &str| name == "made");
    let actions = resolve_with(resolver, &aur, &["made"], &[], true);
    assert!(actions.unneeded.is_empty());
    assert_eq!(names(&actions).0, vec!["made"]);
}

#[test]
fn devel_repo_targets_are_always_installed() {
    let alpm = handle(small());
    let none = Aur { pkgs: Vec::new() };
    let resolver = Plain::new(&alpm, Cache::new(), Flags::new() | Flags::NEEDED)
        .is_devel(|name: &str| name == "old");
    let actions = resolve_with(resolver, &none, &["core/old"], &[], true);
    assert!(actions.unneeded.is_empty());
    assert_eq!(names(&actions).1, vec!["old"]);
}

#[test]
fn make_dependencies_from_the_aur_are_make() {
    let alpm = handle(small());
    let aur = Aur {
        pkgs: vec![
            aur_pkg("foo", "1-1", &["lib"], &["bar"]),
            aur_pkg("bar", "1-1", &[], &[]),
            aur_pkg("lib", "1-1", &[], &[]),
        ],
    };
    let flags = |actions: &Actions<'_, _>| -> Vec<(String, bool, bool)> {
        actions.iter_build_pkgs().iter().map(|p| (p.name().clone(), p.make(), p.target())).collect()
    };
    let resolver = Plain::new(&alpm, Cache::new(), Flags::new());
    let actions = resolve_with(resolver, &aur, &["foo"], &[], true);
    assert_eq!(
        flags(&actions),
        vec![
            ("bar".to_string(), true, false),
            ("lib".to_string(), false, false),
            ("foo".to_string(), false, true),
        ]
    );

    let resolver = Plain::new(&alpm, Cache::new(), Flags::new());
    let actions = resolve_with(resolver, &aur, &["lib"], &["bar"], false);
    assert_eq!(
        flags(&actions),
        vec![("lib".to_string(), false, false), ("bar".to_string(), true, false)]
    );
}

#[test]
fn targets_pulled_in_before_are_targets() {
    let alpm = handle(small());
    let aur = Aur {
        pkgs: vec![aur_pkg("foo", "1-1", &[], &["bar"]), aur_pkg("bar", "1-1", &[], &[])],
    };
    let resolver = Plain::new(&alpm, Cache::new(), Flags::new());
    let actions = resolve_with(resolver, &aur, &["foo", "bar"], &[], true);
    assert_eq!(names(&actions).0, vec!["bar", "foo"]);
    assert!(actions.iter_build_pkgs().iter().all(|p| p.target() && !p.make()));

    let srcinfo = pkgbuild("up", &[(None, &["down"])]);
    let down = pkgbuild("down", &[]);
    let repos = vec![PkgbuildRepo { name: "mine".to_string(), pkgs: vec![&srcinfo, &down] }];
    let resolver = Plain::new(&alpm, Cache::new(), Flags::new()).pkgbuild_repos(repos);
    let actions = resolve_with(resolver, &aur, &["up", "down"], &[], true);
    assert_eq!(names(&actions).0, vec!["down", "up"]);
    assert!(actions.iter_build_pkgs().iter().all(|p| p.target() && !p.make()));
}

#[test]
fn a_dependency_with_a_choice_is_asked_about() {
    let alpm = handle(small());
    let offers: RefCell<Vec<(String, Vec<String>)>> = RefCell::new(Vec::new());
    let aur = Aur {
        pkgs: vec![
            aur_pkg("top", "1", &["foo"], &[]),
            aur_pkg("foo", "1", &[], &[]),
            with(aur_pkg("bb", "1", &[], &[]), &["foo"], &[]),
        ],
    };
    let resolver = Plain::new(&alpm, Cache::new(), Flags::new() | Flags::PROVIDES).provider_callback(
        |dep: &str, pkgs: &[String]| {
            offers.borrow_mut().push((dep.to_string(), pkgs.to_vec()));
            1usize
        },
    );
    let actions = resolve_with(resolver, &aur, &["top"], &[], true);
    assert_eq!(names(&actions).0, vec!["bb", "top"]);
    assert_eq!(*offers.borrow(), vec![("foo".to_string(), strings(&["foo", "bb"]))]);
}

#[test]
fn satisfied_dependencies_are_pulled_in_where_asked() {
    let alpm = handle(small());
    let aur = Aur { pkgs: vec![aur_pkg("made", "3-1", &[], &[])] };
    let flags = Flags::new() | Flags::RESOLVE_SATISFIED_PKGBUILDS;
    let resolver = Plain::new(&alpm, Cache::new(), flags);
    let actions = resolve_with(resolver, &aur, &["made"], &[], false);
    assert_eq!(names(&actions).0, vec!["made"]);
    assert!(actions.unneeded.is_empty());
}

#[test]
fn versions_are_not_enforced_on_dependencies_that_are_installed() {
    let alpm = handle(small());
    let none = Aur { pkgs: Vec::new() };
    let flags = Flags::new() | Flags::NO_DEP_VERSION;
    let resolver = Plain::new(&alpm, Cache::new(), flags);
    let actions = resolve_with(resolver, &none, &["old>5"], &[], false);
    assert!(actions.install.is_empty() && actions.missing.is_empty());
}

#[test]
fn make_dependencies_from_a_repo_are_make() {
    let alpm = handle(small());
    let aur = Aur {
        pkgs: vec![aur_pkg("run", "1-1", &["lib"], &[]), aur_pkg("lib", "1-1", &[], &["one"])],
    };
    let resolver = Plain::new(&alpm, Cache::new(), Flags::new());
    let actions = resolve_with(resolver, &aur, &["run"], &["two"], false);
    let made: Vec<(String, bool)> =
        actions.iter_build_pkgs().iter().map(|p| (p.name().clone(), p.make())).collect();
    assert_eq!(made, vec![("lib".to_string(), false), ("run".to_string(), false)]);
    let installed: Vec<(String, bool)> =
        actions.install.iter().map(|p| (p.pkg.name.clone(), p.make)).collect();
    assert_eq!(installed, vec![("one".to_string(), true), ("two".to_string(), true)]);
}

#[test]
fn satisfied_dependencies_are_skipped() {
    let alpm = handle(small());
    let aur = Aur { pkgs: vec![aur_pkg("made", "3-1", &[], &[])] };
    let resolver = Plain::new(&alpm, Cache::new(), Flags::new());
    let actions = resolve_with(resolver, &aur, &["made", "old"], &[], false);
    assert!(actions.build.is_empty());
    assert!(actions.install.is_empty());
    assert!(actions.missing.is_empty());
    assert!(actions.unneeded.is_empty());
}

fn split_pkg(name: &str, base: &str, depends: &[&str]) -> AurPkg {
    let mut p = aur_pkg(name, "1-1", depends, &[]);
    p.package_base = base.to_string();
    p
}

#[test]
fn packages_of_a_base_are_built_together() {
    let alpm = handle(small());
    let aur = Aur {
        pkgs: vec![
            split_pkg("p1", "p", &[]),
            split_pkg("p2", "p", &[]),
            split_pkg("p3", "p", &["q"]),
            split_pkg("q", "q", &[]),
        ],
    };
    let resolver = Plain::new(&alpm, Cache::new(), Flags::new());
    let actions = resolve_with(resolver, &aur, &["p1", "p2", "p3"], &[], true);
    let bases: Vec<(String, bool, usize)> =
        actions.build.iter().map(|b| (b.text(), b.build(), b.package_count())).collect();
    assert_eq!(
        bases,
        vec![
            ("p-1-1 (p1 p2)".to_string(), true, 2),
            ("q-1-1".to_string(), true, 1),
            ("p3-1-1".to_string(), false, 1),
        ]
    );
    assert!(actions.build[0].target());
    assert!(!actions.build[1].target());
    assert!(!actions.build[1].make());
}

#[test]
fn packages_are_built_after_what_they_need() {
    let alpm = handle(small());
    let aur = Aur {
        pkgs: vec![
            aur_pkg("top", "1-1", &["left", "right"], &[]),
            aur_pkg("left", "1-1", &["bottom"], &[]),
            aur_pkg("right", "1-1", &["left"], &["bottom>=1"]),
            aur_pkg("bottom", "1-1", &["one"], &[]),
        ],
    };
    let resolver = Plain::new(&alpm, Cache::new(), Flags::new());
    let actions = resolve_with(resolver, &aur, &["right", "top"], &[], true);
    let (build, install) = names(&actions);
    assert_eq!(build, vec!["bottom", "left", "right", "top"]);
    assert_eq!(install, vec!["two", "one"]);
    assert!(actions.missing.is_empty());
}

#[test]
fn check_depends_are_followed_where_enabled() {
    let alpm = handle(small());
    let mut p = aur_pkg("p", "1-1", &[], &[]);
    p.check_depends = strings(&["checker"]);
    let aur = Aur { pkgs: vec![p, aur_pkg("checker", "1-1", &[], &[])] };
    for (flags, expected) in [
        (Flags::new() | Flags::CHECK_DEPENDS, vec!["checker", "p"]),
        (Flags::new() & !Flags::CHECK_DEPENDS, vec!["p"]),
    ] {
        let resolver = Plain::new(&alpm, Cache::new(), flags);
        let actions = resolve_with(resolver, &aur, &["p"], &[], true);
        assert_eq!(names(&actions).0, expected);
    }
}

fn pkgbuild(name: &str, depends: &[(Option<&str>, &[&str])]) -> Srcinfo {
    Srcinfo {
        base: SrcinfoBase {
            pkgbase: name.to_string(),
            pkgver: "2".to_string(),
            pkgrel: "1".to_string(),
            epoch: Some("1".to_string()),
            makedepends: Vec::new(),
            checkdepends: Vec::new(),
        },
        pkgs: vec![SrcinfoPkg {
            pkgname: name.to_string(),
            depends: depends
                .iter()
                .map(|(arch, v)| ArchVec { arch: arch.map(|a| a.to_string()), vec: strings(v) })
                .collect(),
            provides: Vec::new(),
            conflicts: vec![ArchVec { arch: None, vec: strings(&["made>2"]) }],
        }],
    }
}

#[test]
fn pkgbuild_dependencies_are_those_of_the_architecture() {
    let alpm = handle(small());
    let s = pkgbuild(
        "mine",
        &[(None, &["made"]), (Some("x86_64"), &["two"]), (Some("armv7h"), &["nowhere"])],
    );
    let repo = vec![PkgbuildRepo { name: "r".to_string(), pkgs: vec![&s] }];
    let resolver = Plain::new(&alpm, Cache::new(), Flags::new()).pkgbuild_repos(repo);
    let actions = resolve_with(resolver, &Aur { pkgs: Vec::new() }, &["r/mine"], &[], true);
    assert!(actions.missing.is_empty());
    assert_eq!(names(&actions), (strings(&["mine"]), strings(&["one", "two"])));
    match &actions.build[0] {
        Base::Pkgbuild(b) => {
            assert_eq!(b.repo, "r");
            assert_eq!(b.version(), "1:2-1");
            assert_eq!(b.package_base(), "mine");
        }
        Base::Aur(_) => panic!("not a pkgbuild"),
    }

    let mut conflict = Conflict::new("mine".into());
    conflict.push("made".into(), &depend("made>2"));
    assert_eq!(actions.calculate_conflicts(true), vec![conflict]);
    assert_eq!(
        actions.calculate_conflicts(false)[0].conflicting[0].conflict,
        Some("made>2".to_string())
    );
}

#[test]
fn pkgbuilds_in_a_circle_are_too_deep() {
    let alpm = handle(small());
    let s = pkgbuild("x", &[(None, &["y"])]);
    let t = pkgbuild("y", &[(None, &["x"])]);
    let repo = vec![PkgbuildRepo { name: "r".to_string(), pkgs: vec![&s, &t] }];
    let mut resolver = Plain::new(&alpm, Cache::new(), Flags::new()).pkgbuild_repos(repo);
    let targets = resolver.split_targets(&targs(&["x"]), &targs(&[]), true);
    assert!(!look_up(&mut resolver, &targets, &Aur { pkgs: Vec::new() }));
    assert_eq!(resolver.find_aur_deps_of_pkgbuild(&Targ::parse("x"), 3), None);
}

#[test]
fn the_depth_is_enough_for_a_chain_of_pkgbuilds() {
    let alpm = handle(small());
    let chain: Vec<Srcinfo> = (0..30)
        .map(|i| pkgbuild(&format!("link{}", i), &[(None, &[format!("link{}", i + 1).as_str()])]))
        .collect();
    let (first, second) = chain.split_at(10);
    let repos = vec![
        PkgbuildRepo { name: "r".to_string(), pkgs: first.iter().collect() },
        PkgbuildRepo { name: "s".to_string(), pkgs: second.iter().collect() },
    ];
    let mut resolver = Plain::new(&alpm, Cache::new(), Flags::new()).pkgbuild_repos(repos);
    let depth = resolver.pkgbuild_depth();
    assert_eq!(depth, 30);
    let targ = Targ::parse("link0");
    assert_eq!(resolver.find_aur_deps_of_pkgbuild(&targ, 28), None);
    assert_eq!(resolver.find_aur_deps_of_pkgbuild(&targ, depth), Some(strings(&["link30"])));
}

#[test]
fn pkgbuilds_need_from_the_aur_what_they_nest() {
    let alpm = handle(small());
    let s = pkgbuild("x", &[(None, &["y", "deep1"])]);
    let t = pkgbuild("y", &[(None, &["deep2", "two", "made"])]);
    let repo = vec![PkgbuildRepo { name: "r".to_string(), pkgs: vec![&s, &t] }];
    let mut resolver = Plain::new(&alpm, Cache::new(), Flags::new()).pkgbuild_repos(repo);
    assert_eq!(resolver.find_aur_deps_of_pkgbuild(&Targ::parse("x"), 0), None);
    assert_eq!(
        resolver.find_aur_deps_of_pkgbuild(&Targ::parse("x"), 1),
        Some(strings(&["deep1", "deep2"]))
    );
    assert_eq!(resolver.find_aur_deps_of_pkgbuild(&Targ::parse("x"), 1), Some(Vec::new()));
}

#[test]
fn lookups_ask_for_names_sorted_and_once() {
    let alpm = handle(small());
    let flags = Flags::new() & !Flags::TARGET_PROVIDES;
    let mut resolver = Plain::new(&alpm, Cache::new(), flags);
    let targets = resolver.split_targets(&targs(&["b>1", "a", "b=2"]), &targs(&[]), true);
    let (pkgs, queries) = match resolver.cache_targets(&targets, DEPTH) {
        Next::Info { pkgs, queries } => (pkgs, queries),
        other => panic!("unexpected {:?}", other),
    };
    assert_eq!(pkgs, vec!["b>1", "a", "b=2"]);
    assert_eq!(queries, vec!["a", "b"]);

    let info = vec![Arc::new(aur_pkg("a", "1", &["made", "two", "dep>1", "dep>1"], &["x"]))];
    let (pkgs, found, queries) = match resolver.on_info(pkgs, info, DEPTH) {
        Next::Search { pkgs, found, queries } => (pkgs, found, queries),
        other => panic!("unexpected {:?}", other),
    };
    assert_eq!(pkgs, vec!["b>1", "b=2"]);
    assert_eq!(found.len(), 1);
    assert_eq!(queries, vec!["b", "b"]);

    let (pkgs, found, queries) = match resolver.on_search(pkgs, found, strings(&["c", "b"])) {
        Next::ProvidesInfo { pkgs, found, queries } => (pkgs, found, queries),
        other => panic!("unexpected {:?}", other),
    };
    assert_eq!(queries, vec!["b", "b=2", "b>1", "c"]);

    let info = vec![
        Arc::new(aur_pkg("b", "0", &["never"], &[])),
        Arc::new(with(aur_pkg("c", "1", &["y"], &[]), &["b=5"], &[])),
    ];
    match resolver.on_provides_info(pkgs, found, info, DEPTH) {
        Next::Info { pkgs, queries } => {
            assert_eq!(pkgs, vec!["dep>1", "x", "y"]);
            assert_eq!(queries, vec!["dep", "x", "y"]);
        }
        other => panic!("unexpected {:?}", other),
    }
    assert_eq!(resolver.get_cache().len(), 3);
    assert!(resolver.get_cache_mut().insert(Arc::new(aur_pkg("d", "1", &[], &[]))));
    assert_eq!(resolver.get_cache().len(), 4);
}

#[test]
fn target_provides_are_searched_for() {
    let alpm = handle(small());
    let mut resolver = Plain::new(&alpm, Cache::new(), Flags::new());
    let targets = resolver.split_targets(&targs(&["made>1", "z"]), &targs(&[]), true);
    match resolver.cache_targets(&targets, DEPTH) {
        Next::Search { pkgs, found, queries } => {
            assert_eq!(pkgs, vec!["made", "z"]);
            assert!(found.is_empty());
            assert_eq!(queries, vec!["z"]);
        }
        other => panic!("unexpected {:?}", other),
    }
    let nothing = resolver.split_targets(&targs(&[]), &targs(&[]), true);
    assert!(matches!(resolver.cache_targets(&nothing, DEPTH), Next::Done));
}

#[test]
fn providers_are_offered_with_the_name_first() {
    let alpm = handle(small());
    let offers: RefCell<Vec<(String, Vec<String>)>> = RefCell::new(Vec::new());
    let aur = Aur {
        pkgs: vec![
            with(aur_pkg("zz", "1", &[], &[]), &["foo"], &[]),
            aur_pkg("foo", "1", &[], &[]),
            with(aur_pkg("bb", "1", &[], &[]), &["foo"], &[]),
        ],
    };
    let resolver = Plain::new(&alpm, Cache::new(), Flags::new()).provider_callback(
        |dep: &str, pkgs: &[String]| {
            offers.borrow_mut().push((dep.to_string(), pkgs.to_vec()));
            2usize
        },
    );
    let actions = resolve_with(resolver, &aur, &["foo"], &[], true);
    assert_eq!(names(&actions).0, vec!["zz"]);
    assert_eq!(*offers.borrow(), vec![("foo".to_string(), strings(&["foo", "bb", "zz"]))]);
}

#[test]
fn a_dependency_takes_what_is_installed() {
    let alpm = handle(small());
    let aur = Aur {
        pkgs: vec![
            aur_pkg("top", "1", &["virt"], &[]),
            with(aur_pkg("alt", "1", &[], &[]), &["virt"], &[]),
            with(aur_pkg("made", "4-1", &[], &[]), &["virt"], &[]),
        ],
    };
    let resolver = Plain::new(&alpm, Cache::new(), Flags::new())
        .provider_callback(|_: &str, _: &[String]| 0usize);
    let actions = resolve_with(resolver, &aur, &["top"], &[], true);
    assert_eq!(names(&actions).0, vec!["made", "top"]);
}

#[test]
fn updates_of_pkgbuilds_and_ignored_packages() {
    let mut sys = small();
    sys.localdb = vec![
        repo_pkg("mine", "1:1-1", &[]),
        repo_pkg("theirs", "1:2-1", &[]),
        repo_pkg("version_newer", "1.0.0-1", &[]),
        repo_pkg("gone", "1-1", &[]),
        repo_pkg("one", "1-1", &[]),
        repo_pkg("hers", "1:1-1", &[]),
    ];
    sys.localdb[2].ignore = true;
    sys.localdb[5].ignore = true;
    let alpm = handle(sys);
    let mine = pkgbuild("mine", &[]);
    let theirs = pkgbuild("theirs", &[]);
    let hers = pkgbuild("hers", &[]);
    let repos = || {
        vec![
            PkgbuildRepo { name: "a".to_string(), pkgs: vec![&mine] },
            PkgbuildRepo { name: "b".to_string(), pkgs: vec![&theirs, &hers] },
        ]
    };
    let u = updates(&alpm, Flags::new(), repos(), None);
    assert_eq!(u.pkgbuild_updates.len(), 1);
    assert_eq!(u.pkgbuild_updates[0].local.name, "mine");
    assert_eq!(u.pkgbuild_updates[0].repo, "a");
    assert_eq!(u.pkgbuild_ignored.len(), 1);
    assert_eq!(u.pkgbuild_ignored[0].remote_pkg.pkgname, "hers");
    assert_eq!(u.pkgbuild_ignored[0].remote_srcinfo.version(), "1:2-1");
    assert!(u.aur_updates.is_empty());
    assert_eq!(u.aur_ignored.len(), 1);
    assert_eq!(u.aur_ignored[0].remote.version, "100.0.0-1");
    let missing: Vec<&str> = u.missing.iter().map(|p| p.name.as_str()).collect();
    assert_eq!(missing, vec!["gone"]);

    let u = updates(&alpm, Flags::new() & !Flags::AUR & !Flags::PKGBUILDS, repos(), None);
    assert!(u.pkgbuild_updates.is_empty() && u.aur_ignored.is_empty() && u.missing.is_empty());
}

#[test]
fn updates_of_named_databases() {
    let alpm = handle(small());
    let u = updates(&alpm, Flags::new(), Vec::new(), Some(&strings(&["extra"])));
    let missing: Vec<(&str, &str)> =
        u.missing.iter().map(|p| (p.name.as_str(), p.version.as_str())).collect();
    assert_eq!(missing, vec![("one", "2-1")]);
}

#[test]
fn conflicts_without_make_dependencies() {
    let mut sys = small();
    sys.localdb[1].conflicts = depends(&["tool"]);
    let mut tool = repo_pkg("tool", "1-1", &[]);
    tool.conflicts = depends(&["old<3"]);
    sys.syncdbs[1].pkgs.push(tool);
    let alpm = handle(sys);
    let aur = Aur { pkgs: vec![aur_pkg("run", "1-1", &[], &["tool"])] };
    let resolver = Plain::new(&alpm, Cache::new(), Flags::new());
    let actions = resolve_with(resolver, &aur, &["run"], &[], true);
    let mut conflict = Conflict::new("tool".into());
    conflict.push("made".into(), &depend("tool"));
    conflict.push("old".into(), &depend("old<3"));
    assert_eq!(actions.calculate_conflicts(true), vec![conflict]);
    assert!(actions.calculate_conflicts(false).is_empty());
    assert!(actions.calculate_inner_conflicts(true).is_empty());
}

#[test]
fn make_calculation_reaches_through_dependencies() {
    let alpm = handle(small());
    let aur = Aur {
        pkgs: vec![
            aur_pkg("top", "1-1", &["mid"], &[]),
            aur_pkg("mid", "1-1", &["low"], &["tool"]),
            aur_pkg("low", "1-1", &[], &["one"]),
            aur_pkg("tool", "1-1", &[], &[]),
        ],
    };
    let resolver = Plain::new(&alpm, Cache::new(), Flags::new());
    let actions = resolve_with(resolver, &aur, &["top"], &[], true);
    let makes: Vec<(String, bool)> =
        actions.iter_build_pkgs().iter().map(|p| (p.name().clone(), p.make())).collect();
    assert_eq!(
        makes,
        vec![
            ("tool".to_string(), true),
            ("low".to_string(), false),
            ("mid".to_string(), false),
            ("top".to_string(), false),
        ]
    );
    assert!(actions.install.iter().all(|p| p.make));

    let resolver = Plain::new(&alpm, Cache::new(), Flags::new() & !Flags::CALCULATE_MAKE);
    let actions = resolve_with(resolver, &aur, &["top"], &[], true);
    assert!(actions.iter_build_pkgs().iter().any(|p| p.name() == "low" && p.make()));
}

#[test]
fn what_a_target_runs_with_is_not_make_only() {
    let alpm = handle(small());
    let aur = Aur {
        pkgs: vec![
            aur_pkg("top", "1-1", &["lib"], &["tool"]),
            aur_pkg("lib", "1-1", &[], &[]),
            aur_pkg("tool", "1-1", &[], &[]),
        ],
    };
    let made = |actions: &Actions<'_, _>| -> Vec<(String, bool)> {
        actions.iter_build_pkgs().iter().map(|p| (p.name().clone(), p.make())).collect()
    };
    let flags = Flags::new() & !Flags::CALCULATE_MAKE;
    let actions = resolve_with(Plain::new(&alpm, Cache::new(), flags), &aur, &["top"], &[], true);
    assert_eq!(
        made(&actions),
        vec![
            ("tool".to_string(), true),
            ("lib".to_string(), false),
            ("top".to_string(), false),
        ]
    );
    let actions = resolve_with(Plain::new(&alpm, Cache::new(), flags), &aur, &[], &["top"], true);
    assert_eq!(
        made(&actions),
        vec![("tool".to_string(), true), ("lib".to_string(), true), ("top".to_string(), true)]
    );
}

#[test]
fn inner_conflicts_of_make_packages_fall_away() {
    let alpm = handle(small());
    let aur = Aur {
        pkgs: vec![
            aur_pkg("top", "1-1", &["a", "b"], &["tool"]),
            with(aur_pkg("a", "1-1", &[], &[]), &[], &["tool", "b"]),
            aur_pkg("b", "1-1", &[], &[]),
            with(aur_pkg("tool", "1-1", &[], &[]), &[], &["b"]),
        ],
    };
    let resolver = Plain::new(&alpm, Cache::new(), Flags::new());
    let actions = resolve_with(resolver, &aur, &["top"], &[], true);
    let mut both = Conflict::new("b".into());
    both.push("tool".into(), &depend("b"));
    both.push("a".into(), &depend("b"));
    let mut tool = Conflict::new("tool".into());
    tool.push("a".into(), &depend("tool"));
    assert_eq!(actions.calculate_inner_conflicts(true), vec![both, tool]);
    let mut run = Conflict::new("b".into());
    run.push("a".into(), &depend("b"));
    assert_eq!(actions.calculate_inner_conflicts(false), vec![run]);
}

#[test]
fn inner_conflicts_are_the_same_where_nothing_is_make_only() {
    let alpm = handle(system());
    let resolver = Plain::new(&alpm, Cache::new(), Flags::new() | Flags::NO_DEPS);
    let actions = resolve_with(resolver, &aur(), &["yay", "yay-git", "yay-bin"], &[], true);
    assert_eq!(actions.calculate_inner_conflicts(true).len(), 3);
    assert_eq!(actions.calculate_inner_conflicts(true), actions.calculate_inner_conflicts(false));
}

#[test]
fn without_dependencies_no_path_leads_to_what_is_missing() {
    let alpm = handle(small());
    let aur = Aur { pkgs: vec![aur_pkg("top", "1-1", &["gone"], &[])] };
    let resolver = Plain::new(&alpm, Cache::new(), Flags::new());
    let actions = resolve_with(resolver, &aur, &["top", "nope"], &[], true);
    let missing: Vec<(&str, usize)> =
        actions.missing.iter().map(|m| (m.dep.as_str(), m.stack.len())).collect();
    assert_eq!(missing, vec![("gone", 1), ("nope", 0)]);
    assert_eq!(actions.missing[0].stack[0].dep, "top");

    let resolver = Plain::new(&alpm, Cache::new(), Flags::new() | Flags::NO_DEPS);
    let actions = resolve_with(resolver, &aur, &["top", "nope", "broken"], &[], true);
    let missing: Vec<(&str, usize)> =
        actions.missing.iter().map(|m| (m.dep.as_str(), m.stack.len())).collect();
    assert_eq!(missing, vec![("nope", 0)]);
}

#[test]
fn lookups_leave_nothing_to_ask_for() {
    let alpm = handle(small());
    let mut srcinfo = custom();
    srcinfo.base.makedepends = Vec::new();
    srcinfo.pkgs[2].depends = vec![ArchVec { arch: None, vec: strings(&["deep>1", "c3"]) }];
    let aur = Aur {
        pkgs: vec![
            aur_pkg("top", "1-1", &["made", "one", "c2", "low"], &[]),
            aur_pkg("low", "1-1", &["top"], &["gone"]),
            with(aur_pkg("deep-git", "1-1", &["last"], &[]), &["deep=2"], &[]),
            aur_pkg("last", "1-1", &[], &[]),
        ],
    };
    for flags in [Flags::new(), Flags::new() & !Flags::PROVIDES & !Flags::MISSING_PROVIDES] {
        let repo = vec![PkgbuildRepo { name: "my_repo".to_string(), pkgs: vec![&srcinfo] }];
        let mut resolver = Plain::new(&alpm, Cache::new(), flags).pkgbuild_repos(repo);
        let targets = resolver.split_targets(&targs(&["top"]), &targs(&[]), true);
        let mut asked: Vec<String> = Vec::new();
        let mut next = resolver.cache_targets(&targets, DEPTH);
        loop {
            next = match next {
                Next::Info { pkgs, queries } => {
                    asked.extend(queries.iter().cloned());
                    resolver.on_info(pkgs, aur.info(&queries), DEPTH)
                }
                Next::Search { pkgs, found, queries } => {
                    resolver.on_search(pkgs, found, aur.search(&queries))
                }
                Next::ProvidesInfo { pkgs, found, queries } => {
                    asked.extend(queries.iter().cloned());
                    resolver.on_provides_info(pkgs, found, aur.info(&queries), DEPTH)
                }
                Next::Done => break,
                Next::TooDeep => panic!("too deep"),
            };
        }
        let has = |n: &str| asked.iter().any(|a| a == n);
        assert!(["top", "low", "deep", "gone"].iter().all(|n| has(n)));
        assert!(!["made", "one", "c2", "c3"].iter().any(|n| has(n)));
        assert_eq!(has("last"), flags.contains(Flags::MISSING_PROVIDES));
    }
}

#[test]
fn satisfied_packages() {
    let alpm = handle(small());
    let p = with(aur_pkg("foo", "1.5-2", &[], &[]), &["bar=3", "baz"], &[]);
    let check = |d: &str, nover: bool| p.satisfies_dep(&alpm, &depend(d), nover);
    assert!(check("foo", false));
    assert!(check("foo=1.5", false));
    assert!(check("foo=1.5-2", false));
    assert!(!check("foo=1.5-3", false));
    assert!(check("foo>=1.5", false));
    assert!(!check("foo>1.5-2", false));
    assert!(check("foo<=2", false));
    assert!(!check("foo<1.5-2", false));
    assert!(check("bar=3", false));
    assert!(!check("bar>3", false));
    assert!(check("bar>3", true));
    assert!(check("baz", false));
    assert!(!check("baz=1", false));
    assert!(check("baz=1", true));
    assert!(!check("qux", true));
    let s = pkgbuild("mine", &[]);
    assert_eq!(s.which_satisfies_dep(&alpm, &depend("mine>=1:2"), false).unwrap(), "mine");
    assert!(s.which_satisfies_dep(&alpm, &depend("mine>1:3"), false).is_none());
    assert!((&s, &s.pkgs[0]).satisfies_dep(&alpm, &depend("mine"), false));
    assert!(repo_pkg("old", "2-1", &[]).satisfies_dep(&alpm, &depend("old=2"), false));
}
