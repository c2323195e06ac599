//! The repo of Python distributions.
use chunkah::components::{ComponentId, ComponentsRepo};
use chunkah::file_info::{FileInfo, FileMap, FileType};
use chunkah::path_map::PathMap;
use chunkah::pip::{claim, read_record, LoadError, PipRepo, RecordError, RECORD_MAX_SIZE};
use chunkah::record::{
    csv_first_field, normalize_name, parse_record, parse_record_path, pyc_source_path,
};
use chunkah::rootfs::{CanonicalizeErrorKind, LinkTarget, ReadError, Rootfs, RootfsFile};
use chunkah::stability::Stability;

/// Adds the directories above a path.
fn add_parents(files: &mut FileMap, path: &str) {
    let mut end = 0;
    while let Some(i) = path[end + 1..].find('/') {
        end = end + 1 + i;
        if !files.contains_key(&path[..end]) {
            files.insert(path[..end].to_string(), FileInfo::dummy(FileType::Directory));
        }
    }
}

/// Adds a file, with the directories above it.
fn write(rootfs: &mut Rootfs, files: &mut FileMap, path: &str, contents: &str) {
    let abs = format!("/{path}");
    add_parents(files, &abs);
    files.insert(abs, FileInfo::dummy(FileType::File));
    rootfs.files.insert(
        path.to_string(),
        RootfsFile {
            size: Some(contents.len() as u64),
            contents: Some(contents.to_string()),
        },
    );
}

fn setup() -> (Rootfs, FileMap) {
    (Rootfs::new(), PathMap::new())
}

/// Asserts which components claim a path.
fn assert_claims(repo: &PipRepo, files: &FileMap, path: &str, expected: &[&str]) {
    let mut names: Vec<&str> = repo
        .strong_claims_for_path(path, files.get(path).unwrap())
        .into_iter()
        .map(|id| repo.component_info(id).name)
        .collect();
    names.sort_unstable();
    assert_eq!(names, expected, "claims for {path}");
}

#[test]
fn test_load_and_claims() {
    let (mut rootfs, mut files) = setup();
    // a package with bytecode and a console script. The bytecode
    // for __init__ was compiled after install and is not in RECORD
    for path in [
        "site-packages/foo/__init__.py",
        "site-packages/foo/bar.py",
        "site-packages/foo/__pycache__/__init__.cpython-312.pyc",
        "site-packages/foo/__pycache__/bar.cpython-312.pyc",
        "bin/foo-cli",
    ] {
        write(&mut rootfs, &mut files, path, "");
    }
    write(
        &mut rootfs,
        &mut files,
        "site-packages/Foo_Pkg-1.2.3.dist-info/RECORD",
        "foo/__init__.py,sha256=abc,0\n\
         foo/bar.py,sha256=abc,0\n\
         foo/__pycache__/bar.cpython-312.pyc,,\n\
         ../bin/foo-cli,sha256=abc,0\n\
         Foo_Pkg-1.2.3.dist-info/RECORD,,\n\
         foo/missing.py,sha256=abc,0\n", // not in rootfs
    );

    // a second package sharing the foo directory, with an absolute path
    write(&mut rootfs, &mut files, "site-packages/foo/baz.py", "");
    write(&mut rootfs, &mut files, "site-packages/absolute.py", "");
    write(
        &mut rootfs,
        &mut files,
        "site-packages/baz-0.1.dist-info/RECORD",
        "foo/baz.py,,\nbaz-0.1.dist-info/RECORD,,\n/site-packages/absolute.py,,\n",
    );

    // unrelated file
    write(&mut rootfs, &mut files, "site-packages/README.txt", "");

    let repo = PipRepo::load(&rootfs, &files, 42).unwrap().unwrap();
    assert_eq!(repo.components.len(), 2);

    assert_claims(&repo, &files, "/site-packages/foo/bar.py", &["foo-pkg"]);
    assert_claims(
        &repo,
        &files,
        "/site-packages/foo/__pycache__/bar.cpython-312.pyc",
        &["foo-pkg"],
    );
    // orphan bytecode claimed via its source
    assert_claims(
        &repo,
        &files,
        "/site-packages/foo/__pycache__/__init__.cpython-312.pyc",
        &["foo-pkg"],
    );
    assert_claims(
        &repo,
        &files,
        "/site-packages/foo/__pycache__",
        &["foo-pkg"],
    );
    // console script via `..`
    assert_claims(&repo, &files, "/bin/foo-cli", &["foo-pkg"]);
    // dist-info claimed too
    assert_claims(
        &repo,
        &files,
        "/site-packages/Foo_Pkg-1.2.3.dist-info/RECORD",
        &["foo-pkg"],
    );
    assert_claims(
        &repo,
        &files,
        "/site-packages/Foo_Pkg-1.2.3.dist-info",
        &["foo-pkg"],
    );
    // shared directory claimed by both
    assert_claims(&repo, &files, "/site-packages/foo", &["baz", "foo-pkg"]);
    // absolute path
    assert_claims(&repo, &files, "/site-packages/absolute.py", &["baz"]);
    // site-packages itself, unrelated files and dirs outside it are unclaimed
    assert_claims(&repo, &files, "/site-packages", &[]);
    assert_claims(&repo, &files, "/site-packages/README.txt", &[]);
    assert_claims(&repo, &files, "/bin", &[]);

    let info = repo.component_info(ComponentId(0));
    assert_eq!(info.mtime_clamp, 42);
    match info.stability {
        Stability::Interval { days } => {
            assert_eq!(days, 30);
            let stability = (-7.0 / days as f64).exp();
            assert!(stability > 0.0 && stability < 1.0);
        }
        other => panic!("{other:?}"),
    }
    assert_eq!(repo.name(), "pip");
    assert_eq!(repo.default_priority(), 20);
    let bar = files.get("/site-packages/foo/bar.py").unwrap();
    assert!(repo
        .weak_claims_for_path(&rootfs, "/site-packages/foo/bar.py", bar)
        .unwrap()
        .is_empty());
}

#[test]
fn test_load_skips_invalid_record() {
    let (mut rootfs, mut files) = setup();
    write(
        &mut rootfs,
        &mut files,
        "site-packages/bad-1.dist-info/RECORD",
        "",
    );
    // not valid UTF-8
    rootfs.files.insert(
        "site-packages/bad-1.dist-info/RECORD".to_string(),
        RootfsFile { size: Some(2), contents: None },
    );
    write(
        &mut rootfs,
        &mut files,
        "site-packages/good-1.dist-info/RECORD",
        "good-1.dist-info/RECORD,,\n",
    );
    let repo = PipRepo::load(&rootfs, &files, 0).unwrap().unwrap();
    assert_eq!(repo.components.len(), 1);
    assert_eq!(repo.components[0], "good");
}

#[test]
fn test_load_none_without_dist_info() {
    let (mut rootfs, mut files) = setup();
    write(&mut rootfs, &mut files, "bin/foo", "");
    assert!(PipRepo::load(&rootfs, &files, 0).unwrap().is_none());
}

#[test]
fn a_record_has_to_be_a_file_that_can_be_read() {
    let (mut rootfs, mut files) = setup();
    let record = "sp/a-1.dist-info/RECORD";
    write(&mut rootfs, &mut files, record, "a-1.dist-info/RECORD,,\n");
    assert_eq!(
        read_record(&rootfs, &format!("/{record}")).unwrap(),
        vec!["a-1.dist-info/RECORD".to_string()]
    );
    assert_eq!(read_record(&rootfs, record).unwrap().len(), 1);
    assert_eq!(
        read_record(&rootfs, "/missing").unwrap_err(),
        RecordError::Open
    );
    rootfs.files.insert(
        record.to_string(),
        RootfsFile {
            size: Some(RECORD_MAX_SIZE + 1),
            contents: Some("x,,\n".to_string()),
        },
    );
    assert_eq!(
        read_record(&rootfs, record).unwrap_err(),
        RecordError::Read(ReadError::TooLarge {
            size: RECORD_MAX_SIZE + 1,
            max_size: RECORD_MAX_SIZE,
        })
    );
    assert!(PipRepo::load(&rootfs, &files, 0).unwrap().is_none());
    // a directory of that name is no RECORD
    write(&mut rootfs, &mut files, record, "a-1.dist-info/RECORD,,\n");
    files.insert(format!("/{record}"), FileInfo::dummy(FileType::Directory));
    assert!(PipRepo::load(&rootfs, &files, 0).unwrap().is_none());
}

#[test]
fn distributions_of_one_name_are_one_component() {
    let (mut rootfs, mut files) = setup();
    for site in ["py311", "py312"] {
        write(&mut rootfs, &mut files, &format!("{site}/m.py"), "");
    }
    write(
        &mut rootfs,
        &mut files,
        "py311/My.Mod-1.dist-info/RECORD",
        "m.py,,\nm.py,,\n",
    );
    write(
        &mut rootfs,
        &mut files,
        "py312/my_mod-2.dist-info/RECORD",
        "m.py,,\n",
    );
    let repo = PipRepo::load(&rootfs, &files, 0).unwrap().unwrap();
    assert_eq!(repo.components.len(), 1);
    assert_claims(&repo, &files, "/py311/m.py", &["my-mod"]);
    assert_claims(&repo, &files, "/py312/m.py", &["my-mod"]);
}

#[test]
fn entries_are_found_through_links() {
    let (mut rootfs, mut files) = setup();
    write(&mut rootfs, &mut files, "usr/lib/sp/pkg/a.py", "");
    write(
        &mut rootfs,
        &mut files,
        "usr/lib/sp/pkg-1.dist-info/RECORD",
        "/lib/sp/pkg/a.py,,\n",
    );
    files.insert("/lib".to_string(), FileInfo::dummy(FileType::Symlink));
    rootfs
        .links
        .insert("lib".to_string(), LinkTarget::Target("usr/lib".to_string()));
    let repo = PipRepo::load(&rootfs, &files, 0).unwrap().unwrap();
    assert_claims(&repo, &files, "/usr/lib/sp/pkg/a.py", &["pkg"]);
    assert_claims(&repo, &files, "/usr/lib/sp/pkg", &["pkg"]);
    assert_claims(&repo, &files, "/usr/lib/sp", &[]);
    assert_claims(&repo, &files, "/lib", &[]);
}

#[test]
fn a_load_fails_where_a_path_cannot_be_resolved() {
    let (mut rootfs, mut files) = setup();
    write(
        &mut rootfs,
        &mut files,
        "sp/a-1.dist-info/RECORD",
        "/l/x,,\n",
    );
    files.insert("/l".to_string(), FileInfo::dummy(FileType::Symlink));
    match PipRepo::load(&rootfs, &files, 0) {
        Err(LoadError::Canonicalize { path, cause }) => {
            assert_eq!(path, "/l/x");
            assert_eq!(cause.kind, CanonicalizeErrorKind::ReadLink);
            assert_eq!(cause.path, "/l");
        }
        other => panic!("{other:?}"),
    }
}

#[test]
fn a_load_fails_where_a_path_is_not_absolute() {
    let (mut rootfs, mut files) = setup();
    files.insert(
        "sp/a-1.dist-info/RECORD".to_string(),
        FileInfo::dummy(FileType::File),
    );
    rootfs.files.insert(
        "sp/a-1.dist-info/RECORD".to_string(),
        RootfsFile { size: Some(6), contents: Some("b/c,,\n".to_string()) },
    );
    match PipRepo::load(&rootfs, &files, 0) {
        Err(LoadError::NotAbsolute { path }) => assert_eq!(path, "sp/b/c"),
        other => panic!("{other:?}"),
    }
}

#[test]
fn bytecode_that_is_listed_stays_with_who_lists_it() {
    let (mut rootfs, mut files) = setup();
    write(&mut rootfs, &mut files, "sp/m.py", "");
    write(&mut rootfs, &mut files, "sp/__pycache__/m.cpython-312.pyc", "");
    write(&mut rootfs, &mut files, "sp/__pycache__/n.cpython-312.pyc", "");
    write(&mut rootfs, &mut files, "sp/a-1.dist-info/RECORD", "m.py,,\n");
    write(
        &mut rootfs,
        &mut files,
        "sp/b-1.dist-info/RECORD",
        "__pycache__/m.cpython-312.pyc,,\n",
    );
    let repo = PipRepo::load(&rootfs, &files, 0).unwrap().unwrap();
    assert_claims(&repo, &files, "/sp/__pycache__/m.cpython-312.pyc", &["b"]);
    // without a source that somebody claims
    assert_claims(&repo, &files, "/sp/__pycache__/n.cpython-312.pyc", &[]);
    assert_claims(&repo, &files, "/sp/__pycache__", &["b"]);
}

#[test]
fn a_claim_is_there_once() {
    let mut map: PathMap<Vec<ComponentId>> = PathMap::new();
    claim(&mut map, "/a".to_string(), ComponentId(1));
    claim(&mut map, "/a".to_string(), ComponentId(0));
    claim(&mut map, "/a/".to_string(), ComponentId(1));
    claim(&mut map, "/b".to_string(), ComponentId(1));
    assert_eq!(map.get("/a").unwrap(), &vec![ComponentId(1), ComponentId(0)]);
    assert_eq!(map.get("/b").unwrap(), &vec![ComponentId(1)]);
    assert_eq!(map.len(), 2);
}

#[test]
fn test_parse_record_path() {
    let p = |s: &str| parse_record_path(s).map(|(_, n)| n);
    assert_eq!(
        p("/usr/lib/python3.12/site-packages/Foo_Bar-1.0.dist-info/RECORD"),
        Some("foo-bar".into())
    );
    // no version
    assert_eq!(p("/opt/venv/lib/x/foo.dist-info/RECORD"), None);
    // not a RECORD file
    assert_eq!(p("/x/foo-1.0.dist-info/METADATA"), None);
    // legacy egg-info
    assert_eq!(p("/x/foo-1.0.egg-info/RECORD"), None);
    // empty name
    assert_eq!(p("/x/-1.0.dist-info/RECORD"), None);
}

#[test]
fn the_dist_info_directory_is_the_parent() {
    assert_eq!(
        parse_record_path("/x/foo-1-2.dist-info/RECORD"),
        Some(("/x/foo-1-2.dist-info", "foo".to_string()))
    );
    assert_eq!(parse_record_path("RECORD"), None);
    assert_eq!(parse_record_path("/RECORD"), None);
    assert_eq!(parse_record_path("../RECORD"), None);
}

#[test]
fn test_normalize_name() {
    assert_eq!(normalize_name("Foo_Bar"), "foo-bar");
    assert_eq!(normalize_name("foo.bar__baz"), "foo-bar-baz");
    assert_eq!(normalize_name("numpy"), "numpy");
}

#[test]
fn the_normal_form_of_a_name_is_its_own() {
    for (name, normal) in [
        ("", ""),
        ("-_.", "-"),
        ("__A__", "-a-"),
        ("_Foo.", "-foo-"),
        ("a.-_B", "a-b"),
        ("\u{c4}B", "\u{c4}b"),
    ] {
        assert_eq!(normalize_name(name), normal);
        assert_eq!(normalize_name(normal), normal);
    }
}

#[test]
fn test_parse_record() {
    let record = "a/b.py,sha256=x,1\r\n\"c,d.py\",,\n\n\"e\"\"f\",,\n";
    assert_eq!(
        parse_record(record),
        vec!["a/b.py".to_string(), "c,d.py".to_string(), "e\"f".to_string()]
    );
}

#[test]
fn the_first_field_of_a_line() {
    for (line, field) in [
        ("", ""),
        (",x", ""),
        ("a", "a"),
        ("a,b,c", "a"),
        ("\"\"", ""),
        ("\"a\"b", "a"),
        ("\"a", "a"),
        ("\"a\"\"\"", "a\""),
        ("\"\"\"\"", "\""),
        ("a\"b,c", "a\"b"),
    ] {
        assert_eq!(csv_first_field(line), field, "{line}");
    }
    for path in ["a", "a,b", "\"", "a\"\"b,\"c", ""] {
        let quoted = format!("\"{}\"", path.replace('"', "\"\""));
        assert_eq!(csv_first_field(&quoted), path);
        assert_eq!(csv_first_field(&format!("{quoted},sha256=x,1")), path);
    }
}

#[test]
fn lines_end_as_they_may() {
    let expect = |contents: &str| {
        let std: Vec<String> = contents
            .lines()
            .filter(|l| !l.is_empty())
            .map(|l| l.to_string())
            .collect();
        assert_eq!(parse_record(contents), std, "{contents:?}");
    };
    for contents in ["", "\n", "a", "a\n", "a\r\nb", "a\r", "a\r\r\n\r\nb\n\n", "\r\n"] {
        expect(contents);
    }
}

#[test]
fn test_pyc_source_path() {
    let p = |s: &str| pyc_source_path(s);
    assert_eq!(
        p("/site-packages/foo/__pycache__/bar.cpython-312.pyc"),
        Some("/site-packages/foo/bar.py".to_string())
    );
    assert_eq!(
        p("/site-packages/foo/__pycache__/bar.cpython-312.opt-1.pyc"),
        Some("/site-packages/foo/bar.py".to_string())
    );
    // dotted module filename
    assert_eq!(
        p("/site-packages/foo/__pycache__/bar.v2.cpython-312.opt-2.pyc"),
        Some("/site-packages/foo/bar.v2.py".to_string())
    );
    // not in __pycache__
    assert_eq!(p("/site-packages/foo/bar.pyc"), None);
    // not bytecode
    assert_eq!(p("/site-packages/foo/__pycache__/bar.py"), None);
}

#[test]
fn only_the_last_dotted_part_is_an_optimization_level() {
    assert_eq!(
        pyc_source_path("/d/__pycache__/m.opt-x.cpython-312.pyc"),
        Some("/d/m.opt-x.py".to_string())
    );
    assert_eq!(
        pyc_source_path("/d/__pycache__/m.opt-x.cpython-312.opt-2.pyc"),
        Some("/d/m.opt-x.py".to_string())
    );
    assert_eq!(pyc_source_path("/d/__pycache__/m.opt-1.pyc"), None);
}

#[test]
fn parts_of_a_record_list_what_the_whole_lists() {
    let (a, b) = ("a.py,,\n\n\"b,c\",,", "d\r\n\"e\"\n");
    let mut parts = parse_record(a);
    parts.extend(parse_record(b));
    assert_eq!(parse_record(&format!("{a}\n{b}")), parts);
    assert_eq!(parts, vec!["a.py", "b,c", "d", "e"]);
}

#[test]
fn bytecode_without_a_module_or_a_tag_has_no_source() {
    assert_eq!(pyc_source_path("/a/__pycache__/bar.pyc"), None);
    assert_eq!(pyc_source_path("/a/__pycache__/.cpython-312.pyc"), None);
    assert_eq!(pyc_source_path("/a/__pycache__/.pyc"), None);
    assert_eq!(
        pyc_source_path("__pycache__/m.t.pyc"),
        Some("m.py".to_string())
    );
    assert_eq!(
        pyc_source_path("/__pycache__/m.t.pyc"),
        Some("/m.py".to_string())
    );
}
