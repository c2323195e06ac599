//! The sorting of files into components.
use chunkah::component_map::{Component, ComponentMap};
use chunkah::components::{ComponentId, ComponentInfo, ComponentsRepo, RepoError};
use chunkah::file_info::{FileInfo, FileMap, FileType};
use chunkah::path_map::PathMap;
use chunkah::pip::LoadError;
use chunkah::repos::{
    ClaimStrength, ComponentsRepos, Detected, LoadReposError, Repo, UNCLAIMED_COMPONENT,
};
use chunkah::rootfs::{Rootfs, RootfsFile};
use chunkah::stability::Stability;

/// A repo that claims the paths it lists.
#[derive(Debug)]
struct Listed {
    name: &'static str,
    priority: usize,
    components: Vec<&'static str>,
    strong: Vec<(&'static str, usize)>,
    weak: Vec<(&'static str, usize)>,
    fails_at: Option<&'static str>,
}

fn listed(
    name: &'static str,
    priority: usize,
    components: &[&'static str],
    strong: &[(&'static str, usize)],
) -> Listed {
    Listed {
        name,
        priority,
        components: components.to_vec(),
        strong: strong.to_vec(),
        weak: vec![],
        fails_at: None,
    }
}

fn ids_of(list: &[(&'static str, usize)], path: &str) -> Vec<ComponentId> {
    list.iter()
        .filter(|(p, _)| *p == path)
        .map(|(_, id)| ComponentId(*id))
        .collect()
}

impl ComponentsRepo for Listed {
    fn name(&self) -> &'static str {
        self.name
    }

    fn default_priority(&self) -> usize {
        self.priority
    }

    fn strong_claims_for_path(&self, path: &str, _file_info: &FileInfo) -> Vec<ComponentId> {
        ids_of(&self.strong, path)
    }

    fn weak_claims_for_path(
        &self,
        _rootfs: &Rootfs,
        path: &str,
        _file_info: &FileInfo,
    ) -> Result<Vec<ComponentId>, RepoError> {
        if self.fails_at == Some(path) {
            return Err(RepoError { message: format!("cannot tell {path}") });
        }
        Ok(ids_of(&self.weak, path))
    }

    fn component_info(&self, id: ComponentId) -> ComponentInfo<'_> {
        ComponentInfo {
            name: self.components[id.0],
            mtime_clamp: 100 + id.0 as u64,
            stability: Stability::Interval { days: 7 },
        }
    }
}

fn scan(paths: &[&str]) -> FileMap {
    let mut files: FileMap = PathMap::new();
    for (i, p) in paths.iter().enumerate() {
        let mut info = FileInfo::dummy(FileType::File);
        info.ino = i as u64;
        files.insert(p.to_string(), info);
    }
    files
}

fn sort(repos: Vec<Listed>, paths: &[&str]) -> ComponentMap {
    let loaded = ComponentsRepos {
        repos: repos.into_iter().map(Repo::Other).collect(),
        default_mtime_clamp: 0,
    };
    loaded.into_components(&Rootfs::new(), scan(paths)).unwrap()
}

fn paths_of(components: &ComponentMap, name: &str) -> Vec<String> {
    let files = &components.get(name).unwrap().files;
    (0..files.len()).map(|i| files.path_at(i).to_string()).collect()
}

#[test]
fn test_into_components() {
    let rpm_repo = listed(
        "rpm",
        10,
        &["bash", "glibc"],
        &[("/usr/bin/bash", 0), ("/usr/lib64/libc.so.6", 1)],
    );
    let xattr_repo = listed(
        "xattr",
        0,
        &["xattr-component", "myapp"],
        &[("/usr/bin/bash", 0), ("/opt/myapp/data", 1)],
    );
    let components = sort(
        vec![rpm_repo, xattr_repo],
        &[
            "/usr",
            "/usr/bin",
            "/usr/lib64",
            "/usr/lib",
            "/usr/lib/sysimage",
            "/usr/lib/sysimage/rpm",
            "/opt",
            "/opt/myapp",
            "/usr/bin/bash",
            "/usr/lib64/libc.so.6",
            "/usr/lib/sysimage/rpm/rpmdb.sqlite",
            "/opt/myapp/config",
            "/opt/myapp/data",
        ],
    );

    // example xattr overrides rpm entry
    assert!(
        components
            .get("xattr/xattr-component")
            .unwrap()
            .files
            .contains_key("/usr/bin/bash"),
        "/usr/bin/bash should belong to xattr/xattr-component"
    );

    // example rpm entry
    assert!(
        components
            .get("rpm/glibc")
            .unwrap()
            .files
            .contains_key("/usr/lib64/libc.so.6"),
        "/usr/lib64/libc.so.6 should belong to rpm/glibc"
    );

    // example xattr entry
    assert!(
        components
            .get("xattr/myapp")
            .unwrap()
            .files
            .contains_key("/opt/myapp/data"),
        "/opt/myapp/data should belong to xattr/myapp"
    );

    // example unclaimed entry
    assert!(
        components
            .get(UNCLAIMED_COMPONENT)
            .unwrap()
            .files
            .contains_key("/opt/myapp/config"),
        "/opt/myapp/config should be unclaimed"
    );

    // rpmdb paths should be unclaimed
    assert!(
        components
            .get(UNCLAIMED_COMPONENT)
            .unwrap()
            .files
            .contains_key("/usr/lib/sysimage/rpm/rpmdb.sqlite"),
        "/usr/lib/sysimage/rpm/rpmdb.sqlite should be unclaimed"
    );

    // a component without files is none
    assert!(!components.contains_key("rpm/bash"));
    assert_eq!(components.len(), 4);
}

#[test]
fn test_into_components_xattr_only() {
    let xattr_repo = listed(
        "xattr",
        0,
        &["myapp"],
        &[("/opt/myapp", 0), ("/opt/myapp/config", 0)],
    );
    let components = sort(vec![xattr_repo], &["/opt", "/opt/myapp", "/opt/myapp/config"]);
    assert!(components.contains_key("xattr/myapp"));
    assert!(components
        .get("xattr/myapp")
        .unwrap()
        .files
        .contains_key("/opt/myapp/config"));
}

#[test]
fn components_keep_what_their_repo_says() {
    let repo = listed("a", 5, &["x", "y"], &[("/1", 1), ("/2", 0), ("/2", 1)]);
    let components = sort(vec![repo], &["/1", "/2", "/3"]);
    let y = components.get("a/y").unwrap();
    assert_eq!(y.mtime_clamp, 101);
    assert_eq!(y.stability, Stability::Interval { days: 7 });
    assert_eq!(paths_of(&components, "a/y"), vec!["/1", "/2"]);
    assert_eq!(paths_of(&components, "a/x"), vec!["/2"]);
    assert_eq!(y.files.get("/2").unwrap().ino, 1);
    let rest = components.get(UNCLAIMED_COMPONENT).unwrap();
    assert_eq!(rest.mtime_clamp, 0);
    assert_eq!(rest.stability, Stability::Unstable);
    assert_eq!(rest.files.get("/3").unwrap().ino, 2);
    let mut names: Vec<&str> = (0..components.len()).map(|i| components.name_at(i)).collect();
    names.sort_unstable();
    assert_eq!(names, vec!["a/x", "a/y", "chunkah/unclaimed"]);
    for i in 0..components.len() {
        let name = components.name_at(i);
        assert_eq!(
            components.component_at(i).files.len(),
            components.get(name).unwrap().files.len()
        );
    }
}

#[test]
fn no_catch_all_without_need() {
    let components = sort(vec![listed("a", 5, &["x"], &[("/1", 0)])], &["/1"]);
    assert!(!components.contains_key(UNCLAIMED_COMPONENT));
    let components = sort(vec![], &["/1"]);
    assert_eq!(paths_of(&components, UNCLAIMED_COMPONENT), vec!["/1"]);
    assert_eq!(sort(vec![], &[]).len(), 0);
}

#[test]
fn strong_claims_come_before_weak_ones() {
    let mut first = listed("first", 1, &["weak"], &[]);
    first.weak = vec![("/1", 0), ("/2", 0)];
    let second = listed("second", 2, &["strong"], &[("/1", 0)]);
    let components = sort(vec![first, second], &["/1", "/2", "/3"]);
    assert_eq!(paths_of(&components, "second/strong"), vec!["/1"]);
    assert_eq!(paths_of(&components, "first/weak"), vec!["/2"]);
    assert_eq!(paths_of(&components, UNCLAIMED_COMPONENT), vec!["/3"]);
}

#[test]
fn of_one_priority_the_first_repo_wins() {
    let a = listed("a", 1, &["x"], &[("/1", 0)]);
    let b = listed("b", 1, &["x"], &[("/1", 0), ("/2", 0)]);
    let c = listed("c", 0, &["x"], &[("/2", 0)]);
    let components = sort(vec![a, b, c], &["/1", "/2"]);
    assert_eq!(paths_of(&components, "a/x"), vec!["/1"]);
    assert_eq!(paths_of(&components, "c/x"), vec!["/2"]);
    assert!(!components.contains_key("b/x"));
}

#[test]
fn the_order_of_different_priorities_makes_no_difference() {
    let repos = |order: [usize; 3]| -> Vec<Listed> {
        order
            .iter()
            .map(|n| match n {
                0 => listed("a", 0, &["x"], &[("/1", 0)]),
                1 => listed("b", 1, &["x"], &[("/1", 0), ("/2", 0)]),
                _ => listed("c", 2, &["x"], &[("/1", 0), ("/2", 0), ("/3", 0)]),
            })
            .collect()
    };
    for order in [[0, 1, 2], [0, 2, 1], [1, 0, 2], [1, 2, 0], [2, 0, 1], [2, 1, 0]] {
        let components = sort(repos(order), &["/1", "/2", "/3", "/4"]);
        assert_eq!(paths_of(&components, "a/x"), vec!["/1"]);
        assert_eq!(paths_of(&components, "b/x"), vec!["/2"]);
        assert_eq!(paths_of(&components, "c/x"), vec!["/3"]);
        assert_eq!(paths_of(&components, UNCLAIMED_COMPONENT), vec!["/4"]);
        assert_eq!(components.len(), 4);
    }
}

#[test]
fn of_components_of_one_name_one_is_there() {
    let repo = listed("a", 5, &["x", "x"], &[("/1", 0), ("/2", 1)]);
    let components = sort(vec![repo], &["/1", "/2"]);
    assert_eq!(components.len(), 1);
    assert_eq!(components.get("a/x").unwrap().files.len(), 1);
    // and the catch-all is there before any of them
    let repo = listed("chunkah", 5, &["unclaimed"], &[("/1", 0)]);
    let components = sort(vec![repo], &["/1", "/2"]);
    assert_eq!(paths_of(&components, UNCLAIMED_COMPONENT), vec!["/2"]);
}

#[test]
fn a_failing_weak_claim_fails_the_sorting() {
    let mut repo = listed("a", 1, &["x"], &[("/1", 0)]);
    repo.fails_at = Some("/2");
    let loaded = ComponentsRepos {
        repos: vec![Repo::Other(repo)],
        default_mtime_clamp: 0,
    };
    let e = loaded
        .into_components(&Rootfs::new(), scan(&["/1", "/2"]))
        .unwrap_err();
    assert_eq!(e.strength, ClaimStrength::Weak);
    assert_eq!(e.path, "/2");
    assert_eq!(e.cause.message, "cannot tell /2");

    // nobody asks for a weak claim where there is a strong one
    let mut repo = listed("a", 1, &["x"], &[("/1", 0)]);
    repo.fails_at = Some("/1");
    assert_eq!(paths_of(&sort(vec![repo], &["/1"]), "a/x"), vec!["/1"]);
}

fn detected() -> Detected<Listed> {
    Detected {
        xattr: Ok(None),
        rpm: Ok(None),
        alpm: Ok(None),
        bigfiles: None,
    }
}

fn failed<T>() -> Result<T, RepoError> {
    Err(RepoError { message: "broken".to_string() })
}

#[test]
fn loaded_repos_are_in_the_order_of_their_kinds() {
    let none = ComponentsRepos::load(detected(), &Rootfs::new(), &scan(&[]), 3).unwrap();
    assert!(none.is_empty());
    assert_eq!(none.default_mtime_clamp, 3);

    let mut rootfs = Rootfs::new();
    rootfs.files.insert(
        "sp/a-1.dist-info/RECORD".to_string(),
        RootfsFile { size: Some(0), contents: Some("a.py,,\n".to_string()) },
    );
    let files = scan(&["/sp/a-1.dist-info/RECORD", "/sp/a.py", "/big", "/x"]);
    let detected = Detected {
        xattr: Ok(Some(listed("xattr", 0, &["c"], &[("/x", 0)]))),
        rpm: Ok(Some(listed("rpm", 10, &[], &[]))),
        alpm: Ok(None),
        bigfiles: Some(listed("bigfiles", 100, &["b"], &[("/big", 0), ("/x", 0)])),
    };
    let loaded = ComponentsRepos::load(detected, &rootfs, &files, 9).unwrap();
    assert!(!loaded.is_empty());
    let names: Vec<&str> = loaded.repos.iter().map(|r| r.name()).collect();
    assert_eq!(names, vec!["xattr", "rpm", "bigfiles", "pip"]);

    let components = loaded.into_components(&rootfs, files).unwrap();
    assert_eq!(paths_of(&components, "pip/a"), vec!["/sp/a.py"]);
    assert_eq!(components.get("pip/a").unwrap().mtime_clamp, 9);
    assert_eq!(paths_of(&components, "xattr/c"), vec!["/x"]);
    assert_eq!(paths_of(&components, "bigfiles/b"), vec!["/big"]);
    assert_eq!(components.get(UNCLAIMED_COMPONENT).unwrap().mtime_clamp, 9);
}

#[test]
fn the_first_repo_that_cannot_be_loaded_is_named() {
    let (rootfs, files) = (Rootfs::new(), scan(&[]));
    let mut d = detected();
    d.alpm = failed();
    match ComponentsRepos::load(d, &rootfs, &files, 0) {
        Err(LoadReposError::Alpm(e)) => assert_eq!(e.message, "broken"),
        other => panic!("{other:?}"),
    }
    let mut d = detected();
    d.rpm = failed();
    d.alpm = failed();
    match ComponentsRepos::load(d, &rootfs, &files, 0) {
        Err(LoadReposError::Rpm(_)) => {}
        other => panic!("{other:?}"),
    }
    let mut d = detected();
    d.xattr = failed();
    d.rpm = failed();
    match ComponentsRepos::load(d, &rootfs, &files, 0) {
        Err(LoadReposError::Xattr(_)) => {}
        other => panic!("{other:?}"),
    }
    let mut rootfs = Rootfs::new();
    rootfs.files.insert(
        "a-1.dist-info/RECORD".to_string(),
        RootfsFile { size: Some(0), contents: Some("a.py,,\n".to_string()) },
    );
    let files = scan(&["a-1.dist-info/RECORD"]);
    match ComponentsRepos::load(detected(), &rootfs, &files, 0) {
        Err(LoadReposError::Pip(LoadError::NotAbsolute { path })) => assert_eq!(path, "a.py"),
        other => panic!("{other:?}"),
    }
}

#[test]
fn component_maps_hold_each_name_once() {
    let component = |clamp: u64| Component {
        mtime_clamp: clamp,
        stability: Stability::Stable,
        files: PathMap::new(),
    };
    let mut map = ComponentMap::new();
    map.insert("a".to_string(), component(1));
    map.insert("b".to_string(), component(2));
    map.insert("a".to_string(), component(3));
    assert_eq!(map.len(), 2);
    assert_eq!(map.get("a").unwrap().mtime_clamp, 3);
    assert_eq!(map.get("a").unwrap().clone().mtime_clamp, 3);
    assert!(map.get("c").is_none());
    assert!(map.contains_key("b"));
}
