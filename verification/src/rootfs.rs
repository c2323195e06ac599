//! What has been read of the root file system, and the resolution of symbolic
//! links against it.
use vstd::prelude::*;

use crate::file_info::{FileFacts, FileMap, FileType};
use crate::path;
use crate::path::Comp;
use crate::path_map::PathMap;

verus! {

/// Maximum depth for symlink resolution to prevent infinite loops.
pub const MAX_SYMLINK_DEPTH: usize = 40;

/// The target of a symbolic link that could be read.
#[derive(Debug)]
pub enum LinkTarget {
    /// The target, where it is UTF-8.
    Target(String),
    /// The target is not UTF-8.
    NotUtf8,
}

/// The view of a [`LinkTarget`].
pub enum Link {
    Target(Seq<Comp>),
    NotUtf8,
}

impl View for LinkTarget {
    type V = Link;

    open spec fn view(&self) -> Link {
        match self {
            LinkTarget::Target(t) => Link::Target(path::components(t@)),
            LinkTarget::NotUtf8 => Link::NotUtf8,
        }
    }
}

/// A file that could be opened.
#[derive(Debug)]
pub struct RootfsFile {
    /// The length of the file in bytes, where its metadata could be read.
    pub size: Option<u64>,
    /// What the file holds, where it could be read and is UTF-8.
    pub contents: Option<String>,
}

/// The view of a [`RootfsFile`].
pub struct FileText {
    pub size: Option<u64>,
    pub contents: Option<Seq<char>>,
}

impl View for RootfsFile {
    type V = FileText;

    open spec fn view(&self) -> FileText {
        FileText {
            size: self.size,
            contents: match self.contents {
                Some(s) => Some(s@),
                None => None,
            },
        }
    }
}

/// What has been read of the root file system: its symbolic links, and the files
/// whose contents are looked at. The paths are relative to the root. A link or
/// file that is not here could not be read.
#[derive(Debug)]
pub struct Rootfs {
    pub links: PathMap<LinkTarget>,
    pub files: PathMap<RootfsFile>,
}

/// The view of a [`Rootfs`].
pub struct Tree {
    pub links: Map<Seq<Comp>, Link>,
    pub files: Map<Seq<Comp>, FileText>,
}

impl View for Rootfs {
    type V = Tree;

    open spec fn view(&self) -> Tree {
        Tree { links: self.links@, files: self.files@ }
    }
}

impl Rootfs {
    pub open spec fn wf(&self) -> bool {
        self.links.wf() && self.files.wf()
    }

    /// A root file system of which nothing could be read.
    pub fn new() -> (r: Self)
        ensures
            r.wf(),
            r@.links == Map::<Seq<Comp>, Link>::empty(),
            r@.files == Map::<Seq<Comp>, FileText>::empty(),
    {
        Rootfs { links: PathMap::new(), files: PathMap::new() }
    }
}

/// Why a file could not be read into memory.
#[derive(Debug, Clone, Copy, PartialEq, Eq, Structural)]
pub enum ReadError {
    /// The metadata of the file could not be obtained.
    Metadata,
    /// The file is too large.
    TooLarge { size: u64, max_size: u64 },
    /// The file could not be read, or is not UTF-8.
    Contents,
}

/// What reading a file of at most `max_size` bytes gives.
pub open spec fn checked_contents(file: FileText, max_size: u64) -> Result<Seq<char>, ReadError> {
    match file.size {
        None => Err(ReadError::Metadata),
        Some(size) => if size > max_size {
            Err(ReadError::TooLarge { size, max_size })
        } else {
            match file.contents {
                Some(text) => Ok(text),
                None => Err(ReadError::Contents),
            }
        },
    }
}

/// Gives the contents of a file after checking that its length does not exceed
/// `max_size`.
pub fn read_file_contents_to_string_checked(file: &RootfsFile, max_size: u64) -> (r: Result<
    String,
    ReadError,
>)
    ensures
        match r {
            Ok(text) => checked_contents(file@, max_size) == Ok::<Seq<char>, ReadError>(text@),
            Err(e) => checked_contents(file@, max_size) == Err::<Seq<char>, ReadError>(e),
        },
{
    match file.size {
        None => Err(ReadError::Metadata),
        Some(size) => {
            if size > max_size {
                Err(ReadError::TooLarge { size, max_size })
            } else {
                match &file.contents {
                    Some(text) => Ok(text.clone()),
                    None => Err(ReadError::Contents),
                }
            }
        },
    }
}

/// A file is given if and only if its size is known and at most `max_size`, and it is
/// text; a file that is too large is refused for its size, whatever it holds.
pub proof fn lemma_checked_contents(file: FileText, max_size: u64, text: Seq<char>)
    ensures
        checked_contents(file, max_size) == Ok::<_, ReadError>(text) <==> {
            &&& file.size matches Some(size)
            &&& size <= max_size
            &&& file.contents == Some(text)
        },
        file.size matches Some(size) ==> (checked_contents(file, max_size) == Err::<Seq<char>, _>(
            ReadError::TooLarge { size, max_size },
        ) <==> size > max_size),
{
}

/// A path that is compared by its components.
#[derive(Debug)]
pub struct OwnedPath(pub String);

impl View for OwnedPath {
    type V = Seq<Comp>;

    open spec fn view(&self) -> Seq<Comp> {
        path::components(self.0@)
    }
}

/// Why a path could not be canonicalized.
#[derive(Debug, Clone, Copy, PartialEq, Eq, Structural)]
pub enum CanonicalizeErrorKind {
    /// There are too many levels of symbolic links.
    TooManyLinks,
    /// The target of a symbolic link could not be read.
    ReadLink,
    /// The target of a symbolic link is not UTF-8.
    NotUtf8,
}

/// Why a path could not be canonicalized, and the path at which it failed.
#[derive(Debug)]
pub struct CanonicalizeError {
    pub kind: CanonicalizeErrorKind,
    pub path: String,
}

/// The view of a [`CanonicalizeError`].
pub struct CanonicalizeFailure {
    pub kind: CanonicalizeErrorKind,
    pub path: Seq<Comp>,
}

impl View for CanonicalizeError {
    type V = CanonicalizeFailure;

    open spec fn view(&self) -> CanonicalizeFailure {
        CanonicalizeFailure { kind: self.kind, path: path::components(self.path@) }
    }
}

/// What canonicalizing a path gives.
pub type Canonical = Result<Seq<Comp>, CanonicalizeFailure>;

/// The canonical paths of the directories seen so far.
pub type Cache = Map<Seq<Comp>, Seq<Comp>>;

pub open spec fn failed(kind: CanonicalizeErrorKind, path: Seq<Comp>) -> Canonical {
    Err(CanonicalizeFailure { kind, path })
}

/// The view of what an executable canonicalization gives.
pub open spec fn canonical_view(r: Result<String, CanonicalizeError>) -> Canonical {
    match r {
        Ok(p) => Ok(path::components(p@)),
        Err(e) => Err(e@),
    }
}

/// Whether `path` is a symbolic link of the root file system.
pub open spec fn is_symlink(files: Map<Seq<Comp>, FileFacts>, path: Seq<Comp>) -> bool {
    files.contains_key(path) && files[path].file_type == FileType::Symlink
}

/// Where a link with this target, found in the directory `dir`, leads.
pub open spec fn link_destination(dir: Seq<Comp>, target: Seq<Comp>) -> Seq<Comp> {
    path::normalized(path::joined(dir, target))
}

/// The canonical path of the directory `path`, reached through `depth` links, and
/// the directories seen after that.
///
/// A directory that was seen before is what it was then. Any other is looked up in
/// its canonical parent; where it is a link there, it is what the destination of
/// the link is.
pub open spec fn canonical_dir(
    tree: Tree,
    files: Map<Seq<Comp>, FileFacts>,
    cache: Cache,
    path: Seq<Comp>,
    depth: nat,
) -> (Canonical, Cache)
    decreases MAX_SYMLINK_DEPTH + 1 - depth, path.len(),
{
    if depth > MAX_SYMLINK_DEPTH {
        (failed(CanonicalizeErrorKind::TooManyLinks, path), cache)
    } else if cache.contains_key(path) {
        (Ok(cache[path]), cache)
    } else if path.len() <= 1 {
        (Ok(path), cache)
    } else {
        let (up, seen) = canonical_dir(tree, files, cache, path.drop_last(), depth);
        match up {
            Err(e) => (Err(e), seen),
            Ok(dir) => {
                let here = dir.push(path.last());
                if !is_symlink(files, here) {
                    (Ok(here), seen.insert(path, here))
                } else if !tree.links.contains_key(here.skip(1)) {
                    (failed(CanonicalizeErrorKind::ReadLink, here), seen)
                } else {
                    match tree.links[here.skip(1)] {
                        Link::NotUtf8 => (failed(CanonicalizeErrorKind::NotUtf8, here), seen),
                        Link::Target(target) => {
                            let (end, seen) = canonical_dir(
                                tree,
                                files,
                                seen,
                                link_destination(dir, target),
                                depth + 1,
                            );
                            match end {
                                Ok(p) => (Ok(p), seen.insert(path, p)),
                                Err(e) => (Err(e), seen),
                            }
                        },
                    }
                }
            },
        }
    }
}

/// The path with its parent directory canonicalized, and the directories seen
/// after that.
pub open spec fn canonical_parent(
    tree: Tree,
    files: Map<Seq<Comp>, FileFacts>,
    cache: Cache,
    path: Seq<Comp>,
) -> (Canonical, Cache) {
    if path.len() <= 1 {
        (Ok(path), cache)
    } else {
        let (up, seen) = canonical_dir(tree, files, cache, path.drop_last(), 0);
        match up {
            Err(e) => (Err(e), seen),
            Ok(dir) => (Ok(dir.push(path.last())), seen),
        }
    }
}

/// Whether all the canonical paths seen so far are absolute.
pub open spec fn cache_absolute(cache: Cache) -> bool {
    forall|p: Seq<Comp>| #[trigger] cache.contains_key(p) ==> path::is_absolute(cache[p])
}

/// What canonicalization gives is absolute, and so is what it has seen.
pub proof fn lemma_canonical_absolute(
    tree: Tree,
    files: Map<Seq<Comp>, FileFacts>,
    cache: Cache,
    path: Seq<Comp>,
    depth: nat,
)
    requires
        path::is_absolute(path),
        cache_absolute(cache),
    ensures
        cache_absolute(canonical_dir(tree, files, cache, path, depth).1),
        match canonical_dir(tree, files, cache, path, depth).0 {
            Ok(p) => path::is_absolute(p),
            Err(_) => true,
        },
    decreases MAX_SYMLINK_DEPTH + 1 - depth, path.len(),
{
    if depth <= MAX_SYMLINK_DEPTH && !cache.contains_key(path) && path.len() > 1 {
        lemma_canonical_absolute(tree, files, cache, path.drop_last(), depth);
        let (up, seen) = canonical_dir(tree, files, cache, path.drop_last(), depth);
        if let Ok(dir) = up {
            let here = dir.push(path.last());
            if is_symlink(files, here) && tree.links.contains_key(here.skip(1)) {
                if let Link::Target(target) = tree.links[here.skip(1)] {
                    lemma_destination_plain(dir, target);
                    lemma_canonical_absolute(
                        tree,
                        files,
                        seen,
                        link_destination(dir, target),
                        depth + 1,
                    );
                }
            }
        }
    }
}

/// A link in an absolute directory leads to a path of names below the root.
pub proof fn lemma_destination_plain(dir: Seq<Comp>, target: Seq<Comp>)
    requires
        path::is_absolute(dir),
    ensures
        path::is_plain(link_destination(dir, target)),
{
    path::lemma_normalized_plain(path::joined(dir, target));
}

/// Canonicalizes a directory path by resolving symbolic links in each of its
/// components.
///
/// The `.` and `..` components of the path are resolved first, as they are in the
/// target of a link. `cache` holds the canonical paths of the directories seen so far.
/// The path must be absolute.
pub fn canonicalize_dir_path(
    rootfs: &Rootfs,
    files: &FileMap,
    path: &str,
    cache: &mut PathMap<OwnedPath>,
    depth: usize,
) -> (r: Result<String, CanonicalizeError>)
    requires
        rootfs.wf(),
        files.wf(),
        old(cache).wf(),
        cache_absolute(old(cache)@),
        path::is_absolute(path::components(path@)),
    ensures
        final(cache).wf(),
        cache_absolute(final(cache)@),
        canonical_view(r) == canonical_dir(
            rootfs@,
            files@,
            old(cache)@,
            path::normalized(path::components(path@)),
            depth as nat,
        ).0,
        final(cache)@ == canonical_dir(
            rootfs@,
            files@,
            old(cache)@,
            path::normalized(path::components(path@)),
            depth as nat,
        ).1,
{
    let plain: String = path::normalize_path(path).unwrap();
    proof {
        path::lemma_normalized_plain(path::components(path@));
    }
    canonicalize_plain_dir(rootfs, files, plain.as_str(), cache, depth)
}

/// Canonicalizes a directory path that holds nothing but names below the root.
fn canonicalize_plain_dir(
    rootfs: &Rootfs,
    files: &FileMap,
    path: &str,
    cache: &mut PathMap<OwnedPath>,
    depth: usize,
) -> (r: Result<String, CanonicalizeError>)
    requires
        rootfs.wf(),
        files.wf(),
        old(cache).wf(),
        cache_absolute(old(cache)@),
        path::is_plain(path::components(path@)),
    ensures
        final(cache).wf(),
        cache_absolute(final(cache)@),
        canonical_view(r) == canonical_dir(
            rootfs@,
            files@,
            old(cache)@,
            path::components(path@),
            depth as nat,
        ).0,
        final(cache)@ == canonical_dir(
            rootfs@,
            files@,
            old(cache)@,
            path::components(path@),
            depth as nat,
        ).1,
    decreases MAX_SYMLINK_DEPTH + 1 - depth, path::components(path@).len(),
{
    let ghost p = path::components(path@);
    proof {
        lemma_canonical_absolute(rootfs@, files@, cache@, p, depth as nat);
        path::lemma_components_path(path@);
        path::lemma_components_root();
    }
    if depth > MAX_SYMLINK_DEPTH {
        return Err(
            CanonicalizeError {
                kind: CanonicalizeErrorKind::TooManyLinks,
                path: path.to_owned(),
            },
        );
    }
    if let Some(seen) = cache.get(path) {
        return Ok(seen.0.clone());
    }
    if path::path_eq(path, "/") {
        return Ok("/".to_owned());
    }
    assert(p.len() == 1 ==> p =~= path::root());
    let above: &str = path::path_parent(path).unwrap();
    assert forall|i: int| 1 <= i < p.drop_last().len() implies #[trigger] p.drop_last()[i] is Normal by {
        assert(p.drop_last()[i] == p[i]);
    }
    let dir: String = match canonicalize_plain_dir(rootfs, files, above, cache, depth) {
        Ok(dir) => dir,
        Err(e) => {
            return Err(e);
        },
    };
    assert(p.last() == p[p.len() - 1]);
    let name: &str = path::path_file_name(path).unwrap();
    proof {
        path::lemma_components_name(name@);
        lemma_canonical_absolute(rootfs@, files@, old(cache)@, p.drop_last(), depth as nat);
    }
    let here: String = path::path_join(dir.as_str(), name);
    let ghost h = path::components(here@);
    assert(h =~= path::components(dir@).push(Comp::Normal(name@)));
    let is_link: bool = match files.get(here.as_str()) {
        Some(info) => info.file_type == FileType::Symlink,
        None => false,
    };
    if !is_link {
        cache.insert(path.to_owned(), OwnedPath(here.clone()));
        return Ok(here);
    }
    assert(path::root().is_prefix_of(h));
    let rel: &str = path::path_strip_prefix(here.as_str(), "/").unwrap();
    let destination: String = match rootfs.links.get(rel) {
        None => {
            return Err(
                CanonicalizeError { kind: CanonicalizeErrorKind::ReadLink, path: here.clone() },
            );
        },
        Some(LinkTarget::NotUtf8) => {
            return Err(
                CanonicalizeError { kind: CanonicalizeErrorKind::NotUtf8, path: here.clone() },
            );
        },
        Some(LinkTarget::Target(target)) => {
            path::normalize_path(path::path_join(dir.as_str(), target.as_str()).as_str()).unwrap()
        },
    };
    proof {
        let target = rootfs@.links[h.skip(1)]->Target_0;
        assert(path::components(destination@) == link_destination(path::components(dir@), target));
        lemma_destination_plain(path::components(dir@), target);
    }
    let end: String = match canonicalize_plain_dir(
        rootfs,
        files,
        destination.as_str(),
        cache,
        depth + 1,
    ) {
        Ok(end) => end,
        Err(e) => {
            return Err(e);
        },
    };
    cache.insert(path.to_owned(), OwnedPath(end.clone()));
    Ok(end)
}

/// Canonicalizes the parent directory of a path by resolving symbolic links.
///
/// Given `/lib/modules/5.x/vmlinuz`, if `/lib` is a link to `usr/lib`, gives
/// `/usr/lib/modules/5.x/vmlinuz`. Only links in directory components are
/// resolved, not the final component: where the final component is meant to be a
/// file or directory, and turns out to be a link, it is not to be claimed.
///
/// The `.` and `..` components of the path are resolved first. The path must be
/// absolute.
pub fn canonicalize_parent_path(
    rootfs: &Rootfs,
    files: &FileMap,
    path: &str,
    cache: &mut PathMap<OwnedPath>,
) -> (r: Result<String, CanonicalizeError>)
    requires
        rootfs.wf(),
        files.wf(),
        old(cache).wf(),
        cache_absolute(old(cache)@),
        path::is_absolute(path::components(path@)),
    ensures
        final(cache).wf(),
        cache_absolute(final(cache)@),
        canonical_view(r) == canonical_parent(
            rootfs@,
            files@,
            old(cache)@,
            path::normalized(path::components(path@)),
        ).0,
        final(cache)@ == canonical_parent(
            rootfs@,
            files@,
            old(cache)@,
            path::normalized(path::components(path@)),
        ).1,
{
    let plain: String = path::normalize_path(path).unwrap();
    let ghost p = path::components(plain@);
    proof {
        path::lemma_components_root();
        path::lemma_components_path(plain@);
        path::lemma_normalized_plain(path::components(path@));
    }
    if path::path_eq(plain.as_str(), "/") {
        return Ok("/".to_owned());
    }
    assert(p.len() == 1 ==> p =~= path::root());
    assert(p.last() == p[p.len() - 1]);
    let above: &str = path::path_parent(plain.as_str()).unwrap();
    let name: &str = path::path_file_name(plain.as_str()).unwrap();
    assert forall|i: int| 1 <= i < p.drop_last().len() implies #[trigger] p.drop_last()[i] is Normal by {
        assert(p.drop_last()[i] == p[i]);
    }
    let dir: String = match canonicalize_plain_dir(rootfs, files, above, cache, 0) {
        Ok(dir) => dir,
        Err(e) => {
            return Err(e);
        },
    };
    proof {
        path::lemma_components_name(name@);
        lemma_canonical_absolute(rootfs@, files@, old(cache)@, p.drop_last(), 0);
    }
    let here: String = path::path_join(dir.as_str(), name);
    assert(path::components(here@) =~= path::components(dir@).push(Comp::Normal(name@)));
    Ok(here)
}

} // verus!
