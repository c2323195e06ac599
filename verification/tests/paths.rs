//! Path normalization, path maps and the resolution of symbolic links.
use camino::Utf8Path;
use chunkah::file_info::{EntryKind, FileInfo, FileMap, FileType, Metadata};
use chunkah::path::{normalize_components, normalize_path, PathComponent};
use chunkah::path_map::PathMap;
use chunkah::rootfs::{
    canonicalize_dir_path, canonicalize_parent_path, read_file_contents_to_string_checked,
    CanonicalizeErrorKind, LinkTarget, OwnedPath, ReadError, Rootfs, RootfsFile,
};

fn add(files: &mut FileMap, path: &str, file_type: FileType) {
    files.insert(path.to_string(), FileInfo::dummy(file_type));
}

fn add_link(rootfs: &mut Rootfs, files: &mut FileMap, target: &str, link: &str) {
    add(files, &format!("/{link}"), FileType::Symlink);
    rootfs
        .links
        .insert(link.to_string(), LinkTarget::Target(target.to_string()));
}

fn dir(rootfs: &Rootfs, files: &FileMap, path: &str) -> Result<String, CanonicalizeErrorKind> {
    let mut cache: PathMap<OwnedPath> = PathMap::new();
    canonicalize_dir_path(rootfs, files, path, &mut cache, 0).map_err(|e| e.kind)
}

#[test]
fn test_normalize_path() {
    let cases = [
        ("/", "/"),
        ("/a/..", "/"),
        ("/a/b/../c", "/a/c"),
        ("/a/./b/c", "/a/b/c"),
        ("/a/b/c/..", "/a/b"),
    ];
    for (input, expected) in cases {
        assert_eq!(
            Utf8Path::new(&normalize_path(input).unwrap()),
            Utf8Path::new(expected),
            "normalize_path({input})"
        );
    }
}

#[test]
fn normalize_keeps_to_the_root_and_drops_what_it_can() {
    let cases = [
        ("/..", "/"),
        ("/../../a", "/a"),
        ("", ""),
        (".", ""),
        ("..", ""),
        ("a/../../b", "b"),
        ("./a//b/", "a/b"),
        ("//a", "/a"),
    ];
    for (input, expected) in cases {
        let once = normalize_path(input).unwrap();
        assert_eq!(once, expected, "normalize_path({input})");
        assert_eq!(normalize_path(&once).unwrap(), expected, "again: {input}");
    }
}

#[test]
fn normalize_refuses_a_prefix() {
    let list = vec![
        PathComponent::RootDir,
        PathComponent::Normal("a".to_string()),
        PathComponent::Prefix("C:".to_string()),
        PathComponent::Prefix("D:".to_string()),
    ];
    assert_eq!(normalize_components(&list).unwrap_err().prefix, "C:");
    let list = vec![
        PathComponent::Normal("a".to_string()),
        PathComponent::CurDir,
        PathComponent::ParentDir,
        PathComponent::Normal("b".to_string()),
    ];
    assert_eq!(normalize_components(&list).unwrap(), "b");
}

#[test]
fn path_maps_are_in_the_order_of_paths() {
    let mut map: FileMap = PathMap::new();
    assert!(map.is_empty());
    for p in ["/b", "/a/b", "/a", "/a-b", "/", "/a/B", "c", "/a.b"] {
        add(&mut map, p, FileType::File);
    }
    let mut expected = vec!["/b", "/a/b", "/a", "/a-b", "/", "/a/B", "c", "/a.b"];
    expected.sort_by_key(|p| Utf8Path::new(*p));
    assert_eq!(map.len(), expected.len());
    for i in 0..map.len() {
        assert_eq!(map.path_at(i), expected[i]);
    }
    // one path, written in several ways
    add(&mut map, "/a//b/.", FileType::Directory);
    assert_eq!(map.len(), expected.len());
    assert_eq!(map.get("/a/./b/").unwrap().file_type, FileType::Directory);
    assert!(map.contains_key("//a"));
    assert!(!map.contains_key("a"));
    assert!(map.get("/missing").is_none());
}

#[test]
fn test_canonicalize_path() {
    let mut rootfs = Rootfs::new();
    let mut files: FileMap = PathMap::new();
    for d in ["/usr", "/usr/lib", "/usr/lib/modules", "/usr/bar"] {
        add(&mut files, d, FileType::Directory);
    }
    add_link(&mut rootfs, &mut files, "usr/lib", "lib");
    add_link(&mut rootfs, &mut files, ".././../bar", "foo");
    add_link(&mut rootfs, &mut files, "usr/bar", "bar");
    let mut cache: PathMap<OwnedPath> = PathMap::new();

    // Test canonicalize_dir_path cases
    let dir_cases = [
        // No symlinks
        ("/usr/lib/modules", "/usr/lib/modules"),
        // Single symlink: /lib -> usr/lib
        ("/lib", "/usr/lib"),
        ("/lib/modules", "/usr/lib/modules"),
        // Symlink chain: /foo -> bar -> usr/bar
        ("/foo", "/usr/bar"),
        // Nonexistent path returns as-is
        ("/nonexistent/path", "/nonexistent/path"),
    ];
    for (input, expected) in dir_cases {
        let result = canonicalize_dir_path(&rootfs, &files, input, &mut cache, 0);
        assert_eq!(
            Utf8Path::new(&result.unwrap()),
            Utf8Path::new(expected),
            "canonicalize_dir_path({input})"
        );
    }

    // Test canonicalize_parent_path (resolves parent symlinks, keeps filename)
    let parent_cases = [
        ("/lib/modules/vmlinuz", "/usr/lib/modules/vmlinuz"),
        ("/foo/baz", "/usr/bar/baz"),
    ];
    for (input, expected) in parent_cases {
        let result = canonicalize_parent_path(&rootfs, &files, input, &mut cache);
        assert_eq!(
            Utf8Path::new(&result.unwrap()),
            Utf8Path::new(expected),
            "canonicalize_parent_path({input})"
        );
    }

    // the cache changes no answer, and a canonical path is its own
    for (input, expected) in dir_cases {
        assert_eq!(dir(&rootfs, &files, input).unwrap(), expected);
        assert_eq!(dir(&rootfs, &files, expected).unwrap(), expected);
    }
}

#[test]
fn the_parent_path_keeps_a_final_link() {
    let mut rootfs = Rootfs::new();
    let mut files: FileMap = PathMap::new();
    add_link(&mut rootfs, &mut files, "usr/lib", "lib");
    let mut cache: PathMap<OwnedPath> = PathMap::new();
    assert_eq!(
        canonicalize_parent_path(&rootfs, &files, "/lib", &mut cache).unwrap(),
        "/lib"
    );
    assert_eq!(
        canonicalize_parent_path(&rootfs, &files, "/", &mut cache).unwrap(),
        "/"
    );
    assert_eq!(
        canonicalize_parent_path(&rootfs, &files, "/lib/x", &mut cache).unwrap(),
        "/usr/lib/x"
    );
    assert_eq!(cache.get("/lib").unwrap().0, "/usr/lib");
}

#[test]
fn absolute_links_start_at_the_root() {
    let mut rootfs = Rootfs::new();
    let mut files: FileMap = PathMap::new();
    add(&mut files, "/var", FileType::Directory);
    add_link(&mut rootfs, &mut files, "/run", "var/run");
    add_link(&mut rootfs, &mut files, "/var/run/lock", "var/lock");
    assert_eq!(dir(&rootfs, &files, "/var/run/x").unwrap(), "/run/x");
    assert_eq!(dir(&rootfs, &files, "/var/lock").unwrap(), "/run/lock");
}

#[test]
fn dots_are_resolved_in_paths_and_in_link_targets() {
    let mut rootfs = Rootfs::new();
    let mut files: FileMap = PathMap::new();
    add(&mut files, "/usr", FileType::Directory);
    add(&mut files, "/bar", FileType::Directory);
    add_link(&mut rootfs, &mut files, "/usr/../bar", "foo");
    add_link(&mut rootfs, &mut files, "/./usr/.", "here");
    assert_eq!(dir(&rootfs, &files, "/foo").unwrap(), "/bar");
    assert_eq!(dir(&rootfs, &files, "/foo/x").unwrap(), "/bar/x");
    assert_eq!(dir(&rootfs, &files, "/here").unwrap(), "/usr");
    assert_eq!(dir(&rootfs, &files, "/usr/../foo/./y").unwrap(), "/bar/y");
    assert_eq!(dir(&rootfs, &files, "/..").unwrap(), "/");
    let mut cache: PathMap<OwnedPath> = PathMap::new();
    let mut parent = |p: &str| canonicalize_parent_path(&rootfs, &files, p, &mut cache).unwrap();
    assert_eq!(parent("/usr/../foo/x"), "/bar/x");
    assert_eq!(parent("/foo/x/.."), "/foo");
    assert_eq!(parent("/foo/.."), "/");
}

#[test]
fn a_base_may_be_normalized_before_or_after() {
    for (base, rel) in [("/a/../b", "../c"), ("/a/..", "x/./y"), ("/a/b", "/c/.."), ("/", "..")] {
        let late = normalize_path(Utf8Path::new(base).join(rel).as_str()).unwrap();
        let early = normalize_path(base).unwrap();
        let early = normalize_path(Utf8Path::new(&early).join(rel).as_str()).unwrap();
        assert_eq!(late, early, "{base} {rel}");
    }
}

#[test]
fn maps_are_cloned_with_their_values() {
    let files = {
        let mut files: FileMap = PathMap::new();
        add(&mut files, "/a", FileType::Directory);
        add(&mut files, "/a/b", FileType::File);
        files
    };
    let copy = files.clone();
    assert_eq!(copy.len(), 2);
    assert_eq!(copy.path_at(1), "/a/b");
    assert_eq!(copy.get("/a").unwrap().file_type, FileType::Directory);
}

#[test]
fn canonicalization_fails() {
    let mut rootfs = Rootfs::new();
    let mut files: FileMap = PathMap::new();
    add_link(&mut rootfs, &mut files, "loop", "loop");
    add(&mut files, "/unread", FileType::Symlink);
    add(&mut files, "/bytes", FileType::Symlink);
    rootfs.links.insert("bytes".to_string(), LinkTarget::NotUtf8);
    assert_eq!(
        dir(&rootfs, &files, "/loop"),
        Err(CanonicalizeErrorKind::TooManyLinks)
    );
    assert_eq!(
        dir(&rootfs, &files, "/unread/a"),
        Err(CanonicalizeErrorKind::ReadLink)
    );
    assert_eq!(
        dir(&rootfs, &files, "/bytes"),
        Err(CanonicalizeErrorKind::NotUtf8)
    );
    let mut cache: PathMap<OwnedPath> = PathMap::new();
    let e = canonicalize_parent_path(&rootfs, &files, "/unread/a", &mut cache).unwrap_err();
    assert_eq!(e.path, "/unread");
}

#[test]
fn as_many_links_as_allowed_are_followed() {
    let mut rootfs = Rootfs::new();
    let mut files: FileMap = PathMap::new();
    for i in 0..42 {
        add_link(&mut rootfs, &mut files, &format!("l{}", i + 1), &format!("l{i}"));
    }
    // /l2 leads to /l42 through 40 links, /l1 through 41
    assert_eq!(dir(&rootfs, &files, "/l2").unwrap(), "/l42");
    assert_eq!(
        dir(&rootfs, &files, "/l1"),
        Err(CanonicalizeErrorKind::TooManyLinks)
    );
    // what has been seen needs no link
    let mut cache: PathMap<OwnedPath> = PathMap::new();
    assert!(canonicalize_dir_path(&rootfs, &files, "/l2", &mut cache, 0).is_ok());
    assert_eq!(
        canonicalize_dir_path(&rootfs, &files, "/l1", &mut cache, 0).unwrap(),
        "/l42"
    );
    assert!(canonicalize_dir_path(&rootfs, &files, "/l2", &mut cache, 41).is_err());
}

#[test]
fn read_file_contents_to_string_checks_size() {
    let max_size = 16;
    let file = |len: usize| RootfsFile {
        size: Some(len as u64),
        contents: Some("a".repeat(len)),
    };

    // Smaller and same size should pass:
    let read_smaller =
        read_file_contents_to_string_checked(&file(max_size - 1), max_size as u64).unwrap();
    assert_eq!(read_smaller.len(), max_size - 1);

    let read_max_size =
        read_file_contents_to_string_checked(&file(max_size), max_size as u64).unwrap();
    assert_eq!(read_max_size.len(), max_size);

    // Larger file should fail:
    let read_larger = read_file_contents_to_string_checked(&file(max_size + 1), max_size as u64);
    assert_eq!(
        read_larger.unwrap_err(),
        ReadError::TooLarge { size: 17, max_size: 16 },
        "read_file_contents_to_string_checked must not read files larger than max_size"
    );
}

#[test]
fn unreadable_files_are_not_read() {
    let no_size = RootfsFile { size: None, contents: Some("a".to_string()) };
    assert_eq!(
        read_file_contents_to_string_checked(&no_size, 1).unwrap_err(),
        ReadError::Metadata
    );
    let no_text = RootfsFile { size: Some(1), contents: None };
    assert_eq!(
        read_file_contents_to_string_checked(&no_text, 1).unwrap_err(),
        ReadError::Contents
    );
}

#[test]
fn file_info_is_taken_from_metadata() {
    let kind = |is_dir, is_file, is_symlink| EntryKind { is_dir, is_file, is_symlink };
    assert_eq!(
        FileType::from_cap_std(&kind(true, false, false)),
        Some(FileType::Directory)
    );
    assert_eq!(
        FileType::from_cap_std(&kind(false, true, false)),
        Some(FileType::File)
    );
    assert_eq!(
        FileType::from_cap_std(&kind(false, false, true)),
        Some(FileType::Symlink)
    );
    assert_eq!(FileType::from_cap_std(&kind(false, false, false)), None);

    let metadata = Metadata {
        mode: 0o100644,
        len: 5,
        uid: 1,
        gid: 2,
        mtime: -1,
        ino: 3,
        nlink: 4,
    };
    let xattrs = vec![("user.component".to_string(), b"x".to_vec())];
    let info = FileInfo::from_metadata(&metadata, FileType::File, xattrs);
    assert_eq!(info.file_type, FileType::File);
    assert_eq!(info.mode, 0o100644);
    assert_eq!(info.size, 5);
    assert_eq!((info.uid, info.gid, info.ino, info.nlink), (1, 2, 3, 4));
    assert_eq!(info.mtime, u64::MAX);
    assert_eq!(info.clone().xattrs, info.xattrs);
    assert_eq!(info.xattrs[0].1, b"x".to_vec());
    assert_eq!(FileInfo::dummy(FileType::Directory).nlink, 1);
}
