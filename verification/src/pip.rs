//! The components repo of installed Python distributions.
use indexmap::IndexSet;
use vstd::prelude::*;

use crate::components::{
    Answer, ComponentFacts, ComponentId, ComponentInfo, ComponentsRepo, RepoError,
};
use crate::file_info::{FileFacts, FileInfo, FileMap, FileType};
use crate::lists;
use crate::path;
use crate::path::Comp;
use crate::path_map::PathMap;
use crate::record;
use crate::rootfs;
use crate::rootfs::{
    Cache, CanonicalizeError, CanonicalizeFailure, OwnedPath, ReadError, Rootfs, Tree,
};
use crate::stability::Stability;
use crate::text;

verus! {

pub const REPO_NAME: &'static str = "pip";

/// Maximum size of a RECORD file we're willing to read into memory.
pub const RECORD_MAX_SIZE: u64 = 64 * 1024 * 1024;

/// Python packages don't carry changelog data, so assume a fixed update cadence
/// for stability purposes. PyPI packages tend to update more often than distro
/// packages.
pub const DEFAULT_UPDATE_INTERVAL_DAYS: u64 = 30;

/// Below the repos of distro package managers, so that Python packages installed
/// by those stay with their distro package.
pub const DEFAULT_PRIORITY: usize = 20;

#[verifier::external_type_specification]
#[verifier::external_body]
#[verifier::reject_recursive_types(T)]
#[verifier::reject_recursive_types(S)]
pub struct ExIndexSet<T, S>(IndexSet<T, S>);

/// The items of a set of strings, in the order in which they were put in.
pub uninterp spec fn index_set_items(set: IndexSet<String>) -> Seq<Seq<char>>;

/// `IndexSet::new` makes an empty set.
#[verifier::external_body]
fn index_set_new() -> (r: IndexSet<String>)
    ensures
        index_set_items(r) == Seq::<Seq<char>>::empty(),
{
    IndexSet::new()
}

/// `IndexSet::insert_full` puts an item at the end, unless an equal one is there,
/// and gives the place of the item and whether it is new.
#[verifier::external_body]
fn index_set_insert_full(set: &mut IndexSet<String>, value: String) -> (r: (usize, bool))
    ensures
        r.1 == !index_set_items(*old(set)).contains(value@),
        r.1 ==> r.0 == index_set_items(*old(set)).len() && index_set_items(*final(set))
            == index_set_items(*old(set)).push(value@),
        !r.1 ==> r.0 < index_set_items(*old(set)).len() && index_set_items(*old(set))[r.0 as int]
            == value@ && index_set_items(*final(set)) == index_set_items(*old(set)),
{
    set.insert_full(value)
}

/// `IndexSet::is_empty` tells whether there is no item.
#[verifier::external_body]
fn index_set_is_empty(set: &IndexSet<String>) -> (r: bool)
    ensures
        r == (index_set_items(*set).len() == 0),
{
    set.is_empty()
}

/// Indexing an `IndexSet` gives the item at that place.
#[verifier::external_body]
fn index_set_at(set: &IndexSet<String>, i: usize) -> (r: &str)
    requires
        i < index_set_items(*set).len(),
    ensures
        r@ == index_set_items(*set)[i as int],
{
    &set[i]
}

/// The components that claim a path.
pub open spec fn claimants(
    claims: Map<Seq<Comp>, Seq<ComponentId>>,
    path: Seq<Comp>,
) -> Seq<ComponentId> {
    if claims.contains_key(path) {
        claims[path]
    } else {
        Seq::empty()
    }
}

/// The claims with `id` as a claimant of `path`, the last one if it is new.
pub open spec fn with_claim(
    claims: Map<Seq<Comp>, Seq<ComponentId>>,
    path: Seq<Comp>,
    id: ComponentId,
) -> Map<Seq<Comp>, Seq<ComponentId>> {
    let ids = claimants(claims, path);
    claims.insert(path, if ids.contains(id) { ids } else { ids.push(id) })
}

/// The claims with `id` as a claimant of each of the paths.
pub open spec fn with_claims(
    claims: Map<Seq<Comp>, Seq<ComponentId>>,
    paths: Seq<Seq<Comp>>,
    id: ComponentId,
) -> Map<Seq<Comp>, Seq<ComponentId>>
    decreases paths.len(),
{
    if paths.len() == 0 {
        claims
    } else {
        with_claim(with_claims(claims, paths.drop_last(), id), paths.last(), id)
    }
}

/// The components that claim `path`, in a list of their own.
fn copy_claimants(map: &PathMap<Vec<ComponentId>>, path: &str) -> (r: Vec<ComponentId>)
    requires
        map.wf(),
    ensures
        r@ == claimants(map@, path::components(path@)),
{
    match map.get(path) {
        None => Vec::new(),
        Some(known) => {
            let ids: Vec<ComponentId> = known.clone();
            assert(ids@ =~= known@);
            ids
        },
    }
}

/// Adds `id` as a claimant of `path`, without duplicates.
pub fn claim(map: &mut PathMap<Vec<ComponentId>>, path: String, id: ComponentId)
    requires
        old(map).wf(),
    ensures
        final(map).wf(),
        final(map)@ == with_claim(old(map)@, path::components(path@), id),
{
    let mut ids: Vec<ComponentId> = copy_claimants(map, path.as_str());
    let mut found: bool = false;
    let mut i: usize = 0;
    assert(ids@.take(0) =~= Seq::<ComponentId>::empty());
    while i < ids.len()
        invariant
            i <= ids@.len(),
            found == ids@.take(i as int).contains(id),
        decreases ids@.len() - i,
    {
        proof {
            assert(ids@.take(i + 1) =~= ids@.take(i as int).push(ids@[i as int]));
            lists::lemma_push_contains(ids@.take(i as int), ids@[i as int]);
        }
        if ids[i] == id {
            found = true;
        }
        i += 1;
    }
    assert(ids@.take(i as int) =~= ids@);
    if !found {
        ids.push(id);
    }
    map.insert(path, ids);
}

/// Why the distributions could not be loaded.
#[derive(Debug)]
pub enum LoadError {
    /// The path that a RECORD entry stands for is not absolute. This comes only of
    /// a RECORD that is itself listed under a path that is not absolute.
    NotAbsolute { path: String },
    /// The path that a RECORD entry stands for could not be canonicalized.
    Canonicalize { path: String, cause: CanonicalizeError },
}

/// The view of a [`LoadError`].
pub enum LoadFailure {
    NotAbsolute { path: Seq<Comp> },
    Canonicalize { path: Seq<Comp>, cause: CanonicalizeFailure },
}

impl View for LoadError {
    type V = LoadFailure;

    open spec fn view(&self) -> LoadFailure {
        match self {
            LoadError::NotAbsolute { path } => LoadFailure::NotAbsolute {
                path: path::components(path@),
            },
            LoadError::Canonicalize { path, cause } => LoadFailure::Canonicalize {
                path: path::components(path@),
                cause: cause@,
            },
        }
    }
}

/// What has been found so far: the names of the components, whose place is their
/// identifier, who claims which path, and the directories seen.
pub struct Found {
    pub names: Seq<Seq<char>>,
    pub claims: Map<Seq<Comp>, Seq<ComponentId>>,
    pub cache: Cache,
}

/// The state of a load.
struct Loading {
    components: IndexSet<String>,
    claims: PathMap<Vec<ComponentId>>,
    cache: PathMap<OwnedPath>,
}

impl View for Loading {
    type V = Found;

    closed spec fn view(&self) -> Found {
        Found {
            names: index_set_items(self.components),
            claims: self.claims@,
            cache: self.cache@,
        }
    }
}

impl Loading {
    spec fn wf(&self) -> bool {
        &&& self.claims.wf()
        &&& self.cache.wf()
        &&& rootfs::cache_absolute(self.cache@)
        &&& index_set_items(self.components).no_duplicates()
    }
}

/// The directories above `p` and below `site`, the nearest one first.
pub open spec fn dirs_between(site: Seq<Comp>, p: Seq<Comp>) -> Seq<Seq<Comp>> {
    if site.is_prefix_of(p) && p.len() > site.len() {
        Seq::new((p.len() - 1 - site.len()) as nat, |i: int| p.take(p.len() - 1 - i))
    } else {
        Seq::empty()
    }
}

/// The path that a RECORD entry stands for, before links are resolved.
pub open spec fn entry_path(site: Seq<Comp>, entry: Seq<char>) -> Seq<Comp> {
    path::normalized(path::joined(site, path::components(entry)))
}

/// What is found with one more RECORD entry of the component `id`, of a
/// distribution in `site`.
///
/// Where the file of the entry is in the root file system, it is claimed, and so
/// are the directories that it is in up to `site`.
pub open spec fn with_entry(
    tree: Tree,
    files: Map<Seq<Comp>, FileFacts>,
    site: Seq<Comp>,
    id: ComponentId,
    found: Found,
    entry: Seq<char>,
) -> Result<Found, LoadFailure> {
    let path = entry_path(site, entry);
    let (canonical, cache) = rootfs::canonical_parent(tree, files, found.cache, path);
    if !path::is_absolute(path) {
        Err(LoadFailure::NotAbsolute { path })
    } else {
        match canonical {
            Err(cause) => Err(LoadFailure::Canonicalize { path, cause }),
            Ok(file) => Ok(
                Found {
                    names: found.names,
                    claims: if files.contains_key(file) {
                        with_claims(found.claims, seq![file] + dirs_between(site, file), id)
                    } else {
                        found.claims
                    },
                    cache,
                },
            ),
        }
    }
}

/// What is found with the entries of a RECORD.
pub open spec fn with_entries(
    tree: Tree,
    files: Map<Seq<Comp>, FileFacts>,
    site: Seq<Comp>,
    id: ComponentId,
    found: Found,
    entries: Seq<Seq<char>>,
) -> Result<Found, LoadFailure>
    decreases entries.len(),
{
    if entries.len() == 0 {
        Ok(found)
    } else {
        match with_entries(tree, files, site, id, found, entries.drop_last()) {
            Ok(found) => with_entry(tree, files, site, id, found, entries.last()),
            Err(e) => Err(e),
        }
    }
}

/// Why a RECORD could not be read.
#[derive(Debug, Clone, Copy, PartialEq, Eq, Structural)]
pub enum RecordError {
    /// It could not be opened.
    Open,
    /// It could not be read into memory.
    Read(ReadError),
}

/// A path as seen from the root.
pub open spec fn from_root(p: Seq<Comp>) -> Seq<Comp> {
    if path::is_absolute(p) {
        p.skip(1)
    } else {
        p
    }
}

/// The paths that the RECORD at `p` lists.
pub open spec fn recorded(tree: Tree, p: Seq<Comp>) -> Result<Seq<Seq<char>>, RecordError> {
    if !tree.files.contains_key(from_root(p)) {
        Err(RecordError::Open)
    } else {
        match rootfs::checked_contents(tree.files[from_root(p)], RECORD_MAX_SIZE) {
            Ok(text) => Ok(record::record_paths(text)),
            Err(e) => Err(RecordError::Read(e)),
        }
    }
}

/// The names with `name` among them, the last one if it is new, and its place.
pub open spec fn with_name(names: Seq<Seq<char>>, name: Seq<char>) -> (Seq<Seq<char>>, int) {
    if names.contains(name) {
        (names, names.index_of(name))
    } else {
        (names.push(name), names.len() as int)
    }
}

/// What is found with one more file of the root file system. Only a readable
/// RECORD adds to it.
pub open spec fn with_file(
    tree: Tree,
    files: Map<Seq<Comp>, FileFacts>,
    found: Found,
    p: Seq<Comp>,
) -> Result<Found, LoadFailure> {
    match (record::record_of(p), recorded(tree, p)) {
        (Some((dist_info, name)), Ok(entries)) => if files[p].file_type == FileType::File {
            let (names, id) = with_name(found.names, name);
            with_entries(
                tree,
                files,
                dist_info.drop_last(),
                ComponentId(id as usize),
                Found { names, claims: found.claims, cache: found.cache },
                entries,
            )
        } else {
            Ok(found)
        },
        _ => Ok(found),
    }
}

/// What is found with these files of the root file system.
pub open spec fn with_files(
    tree: Tree,
    files: Map<Seq<Comp>, FileFacts>,
    paths: Seq<Seq<Comp>>,
) -> Result<Found, LoadFailure>
    decreases paths.len(),
{
    if paths.len() == 0 {
        Ok(Found { names: Seq::empty(), claims: Map::empty(), cache: Map::empty() })
    } else {
        match with_files(tree, files, paths.drop_last()) {
            Ok(found) => with_file(tree, files, found, paths.last()),
            Err(e) => Err(e),
        }
    }
}

/// The claims with those of `ids` on a bytecode file and the directory it is in.
pub open spec fn with_bytecode_of(
    claims: Map<Seq<Comp>, Seq<ComponentId>>,
    p: Seq<Comp>,
    ids: Seq<ComponentId>,
) -> Map<Seq<Comp>, Seq<ComponentId>>
    decreases ids.len(),
{
    if ids.len() == 0 {
        claims
    } else {
        with_claims(
            with_bytecode_of(claims, p, ids.drop_last()),
            seq![p, p.drop_last()],
            ids.last(),
        )
    }
}

/// The claims after a look at one more file: bytecode that nobody claims goes to
/// the claimants of its source file.
pub open spec fn with_bytecode(
    files: Map<Seq<Comp>, FileFacts>,
    claims: Map<Seq<Comp>, Seq<ComponentId>>,
    p: Seq<Comp>,
) -> Map<Seq<Comp>, Seq<ComponentId>> {
    match record::source_of(p) {
        Some(source) => if files[p].file_type == FileType::File && !claims.contains_key(p) {
            with_bytecode_of(claims, p, claimants(claims, source))
        } else {
            claims
        },
        None => claims,
    }
}

/// The claims after a look at these files for unclaimed bytecode.
pub open spec fn with_all_bytecode(
    files: Map<Seq<Comp>, FileFacts>,
    claims: Map<Seq<Comp>, Seq<ComponentId>>,
    paths: Seq<Seq<Comp>>,
) -> Map<Seq<Comp>, Seq<ComponentId>>
    decreases paths.len(),
{
    if paths.len() == 0 {
        claims
    } else {
        with_bytecode(files, with_all_bytecode(files, claims, paths.drop_last()), paths.last())
    }
}

/// The claims on one more path.
proof fn lemma_with_claims_next(
    claims: Map<Seq<Comp>, Seq<ComponentId>>,
    paths: Seq<Seq<Comp>>,
    i: int,
    id: ComponentId,
)
    requires
        0 <= i < paths.len(),
    ensures
        with_claims(claims, paths.take(i + 1), id) == with_claim(
            with_claims(claims, paths.take(i), id),
            paths[i],
            id,
        ),
{
    assert(paths.take(i + 1).drop_last() =~= paths.take(i));
}

/// Claims a file for `id`, and the directories that it is in up to `site`.
fn claim_file_and_dirs(
    map: &mut PathMap<Vec<ComponentId>>,
    file: &str,
    site: &str,
    id: ComponentId,
)
    requires
        old(map).wf(),
        path::components(file@).len() > 0,
    ensures
        final(map).wf(),
        final(map)@ == with_claims(
            old(map)@,
            seq![path::components(file@)] + dirs_between(
                path::components(site@),
                path::components(file@),
            ),
            id,
        ),
{
    let ghost p = path::components(file@);
    let ghost s = path::components(site@);
    let ghost dirs = dirs_between(s, p);
    let ghost all = seq![p] + dirs;
    let ghost start = map@;
    proof {
        path::lemma_components_path(file@);
        assert(all.take(0) =~= Seq::<Seq<Comp>>::empty());
        lemma_with_claims_next(start, all, 0, id);
    }
    claim(map, file.to_owned(), id);
    let mut dir: Option<&str> = path::path_parent(file);
    let mut going: bool = true;
    let ghost mut m: int = 0;
    assert(p.len() > 1 ==> p.drop_last() =~= p.take(p.len() - 1));
    while going
        invariant
            map.wf(),
            p == path::components(file@),
            s == path::components(site@),
            path::is_path(p),
            p.len() > 0,
            dirs == dirs_between(s, p),
            all == seq![p] + dirs,
            0 <= m <= dirs.len(),
            map@ == with_claims(start, all.take(m + 1), id),
            match dir {
                Some(d) => m + 1 < p.len() + 1 && path::components(d@) == p.take(p.len() - 1 - m),
                None => m == dirs.len(),
            },
            !going ==> m == dirs.len(),
        decreases dirs.len() - m + if going { 1int } else { 0int },
    {
        match dir {
            None => {
                going = false;
            },
            Some(d) => {
                let ghost k = p.len() - 1 - m;
                proof {
                    let here = p.take(k);
                    if s.is_prefix_of(here) && s != here {
                        assert(s.len() < k);
                        assert(s =~= p.subrange(0, s.len() as int));
                        assert(s.is_prefix_of(p));
                        assert(dirs[m] == here);
                        assert(all[m + 1] == here);
                        lemma_with_claims_next(start, all, m + 1, id);
                        assert(k > 1 ==> here.drop_last() =~= p.take(k - 1));
                    } else if s.is_prefix_of(p) && p.len() > s.len() && k > s.len() {
                        assert(s =~= here.subrange(0, s.len() as int));
                    }
                }
                if path::path_starts_with(d, site) && !path::path_eq(d, site) {
                    claim(map, d.to_owned(), id);
                    dir = path::path_parent(d);
                    proof {
                        let here = p.take(k);
                        assert(here.drop_last() =~= p.take(k - 1));
                        m = m + 1;
                    }
                } else {
                    going = false;
                }
            },
        }
    }
    assert(all.take(m + 1) =~= all);
}

impl Loading {
    /// Claims what a RECORD entry stands for.
    fn claim_entry(
        &mut self,
        rootfs: &Rootfs,
        files: &FileMap,
        site: &str,
        id: ComponentId,
        entry: &str,
    ) -> (r: Result<(), LoadError>)
        requires
            old(self).wf(),
            rootfs.wf(),
            files.wf(),
        ensures
            match r {
                Ok(()) => final(self).wf() && with_entry(
                    rootfs@,
                    files@,
                    path::components(site@),
                    id,
                    old(self)@,
                    entry@,
                ) == Ok::<Found, LoadFailure>(final(self)@),
                Err(e) => with_entry(
                    rootfs@,
                    files@,
                    path::components(site@),
                    id,
                    old(self)@,
                    entry@,
                ) == Err::<Found, LoadFailure>(e@),
            },
    {
        let joined: String = path::path_join(site, entry);
        let abs: String = path::normalize_path(joined.as_str()).unwrap();
        let ghost p = path::components(abs@);
        assert(p == entry_path(path::components(site@), entry@));
        if !path::path_is_absolute(abs.as_str()) {
            return Err(LoadError::NotAbsolute { path: abs });
        }
        proof {
            path::lemma_components_path(joined@);
            path::lemma_normalized_idempotent(path::components(joined@));
            lemma_canonical_parent_absolute(rootfs@, files@, self.cache@, p);
        }
        let canonical: String = match rootfs::canonicalize_parent_path(
            rootfs,
            files,
            abs.as_str(),
            &mut self.cache,
        ) {
            Ok(canonical) => canonical,
            Err(cause) => {
                return Err(LoadError::Canonicalize { path: abs, cause });
            },
        };
        if files.contains_key(canonical.as_str()) {
            claim_file_and_dirs(&mut self.claims, canonical.as_str(), site, id);
        }
        Ok(())
    }

    /// Claims what the entries of a RECORD stand for.
    fn claim_entries(
        &mut self,
        rootfs: &Rootfs,
        files: &FileMap,
        site: &str,
        id: ComponentId,
        entries: &Vec<String>,
    ) -> (r: Result<(), LoadError>)
        requires
            old(self).wf(),
            rootfs.wf(),
            files.wf(),
        ensures
            match r {
                Ok(()) => final(self).wf() && with_entries(
                    rootfs@,
                    files@,
                    path::components(site@),
                    id,
                    old(self)@,
                    text::string_views(entries@),
                ) == Ok::<Found, LoadFailure>(final(self)@),
                Err(e) => with_entries(
                    rootfs@,
                    files@,
                    path::components(site@),
                    id,
                    old(self)@,
                    text::string_views(entries@),
                ) == Err::<Found, LoadFailure>(e@),
            },
    {
        let ghost s = path::components(site@);
        let ghost views = text::string_views(entries@);
        let ghost start = self@;
        let mut i: usize = 0;
        assert(views.take(0) =~= Seq::<Seq<char>>::empty());
        while i < entries.len()
            invariant
                self.wf(),
                rootfs.wf(),
                files.wf(),
                i <= entries@.len(),
                s == path::components(site@),
                views == text::string_views(entries@),
                start == old(self)@,
                with_entries(rootfs@, files@, s, id, start, views.take(i as int)) == Ok::<
                    Found,
                    LoadFailure,
                >(self@),
            decreases entries@.len() - i,
        {
            proof {
                assert(views.take(i + 1).drop_last() =~= views.take(i as int));
                assert(views.take(i + 1).last() == entries@[i as int]@);
            }
            match self.claim_entry(rootfs, files, site, id, entries[i].as_str()) {
                Ok(()) => {},
                Err(e) => {
                    proof {
                        lemma_entries_error(rootfs@, files@, s, id, start, views, i + 1);
                    }
                    return Err(e);
                },
            }
            i += 1;
        }
        assert(views.take(i as int) =~= views);
        Ok(())
    }

    /// Loads one more file of the root file system, if it is a RECORD.
    fn load_file(
        &mut self,
        rootfs: &Rootfs,
        files: &FileMap,
        path: &str,
        file_info: &FileInfo,
    ) -> (r: Result<(), LoadError>)
        requires
            old(self).wf(),
            rootfs.wf(),
            files.wf(),
            files@[path::components(path@)] == file_info@,
        ensures
            match r {
                Ok(()) => final(self).wf() && with_file(
                    rootfs@,
                    files@,
                    old(self)@,
                    path::components(path@),
                ) == Ok::<Found, LoadFailure>(final(self)@),
                Err(e) => with_file(rootfs@, files@, old(self)@, path::components(path@)) == Err::<
                    Found,
                    LoadFailure,
                >(e@),
            },
    {
        if file_info.file_type != FileType::File {
            return Ok(());
        }
        let (dist_info, name): (&str, String) = match record::parse_record_path(path) {
            Some(found) => found,
            None => {
                return Ok(());
            },
        };
        // site-packages (or equivalent) is the parent of the dist-info dir and
        // RECORD entries are relative to it
        let site: &str = path::path_parent(dist_info).unwrap();
        // a RECORD that cannot be read is skipped
        let entries: Vec<String> = match read_record(rootfs, path) {
            Ok(entries) => entries,
            Err(_) => {
                return Ok(());
            },
        };
        let ghost names = index_set_items(self.components);
        let ghost given = name@;
        let (id, _): (usize, bool) = index_set_insert_full(&mut self.components, name);
        proof {
            let (new_names, place) = with_name(names, given);
            if names.contains(given) {
                assert(names[names.index_of(given)] == given);
                assert(id == place);
            } else {
                lists::lemma_push_unique(names, given);
            }
            assert(id == place);
            assert(ComponentId(id) == ComponentId(place as usize));
        }
        self.claim_entries(rootfs, files, site, ComponentId(id), &entries)
    }

    /// Claims a bytecode file that nobody claims for the claimants of its source.
    fn claim_bytecode(&mut self, files: &FileMap, path: &str, file_info: &FileInfo)
        requires
            old(self).wf(),
            files@[path::components(path@)] == file_info@,
        ensures
            final(self).wf(),
            final(self).components == old(self).components,
            final(self).claims@ == with_bytecode(
                files@,
                old(self).claims@,
                path::components(path@),
            ),
    {
        let ghost p = path::components(path@);
        if file_info.file_type != FileType::File || self.claims.contains_key(path) {
            return;
        }
        let source: String = match record::pyc_source_path(path) {
            Some(source) => source,
            None => {
                return;
            },
        };
        let ids: Vec<ComponentId> = copy_claimants(&self.claims, source.as_str());
        let dir: &str = path::path_parent(path).unwrap();
        let ghost start = self.claims@;
        let mut i: usize = 0;
        assert(ids@.take(0) =~= Seq::<ComponentId>::empty());
        while i < ids.len()
            invariant
                self.wf(),
                self.components == old(self).components,
                i <= ids@.len(),
                p == path::components(path@),
                path::components(dir@) == p.drop_last(),
                self.claims@ == with_bytecode_of(start, p, ids@.take(i as int)),
            decreases ids@.len() - i,
        {
            proof {
                let pair = seq![p, p.drop_last()];
                let now = self.claims@;
                assert(ids@.take(i + 1).drop_last() =~= ids@.take(i as int));
                assert(pair.take(0) =~= Seq::<Seq<Comp>>::empty());
                lemma_with_claims_next(now, pair, 0, ids@[i as int]);
                lemma_with_claims_next(now, pair, 1, ids@[i as int]);
                assert(pair.take(2) =~= pair);
            }
            claim(&mut self.claims, path.to_owned(), ids[i]);
            claim(&mut self.claims, dir.to_owned(), ids[i]);
            i += 1;
        }
        assert(ids@.take(i as int) =~= ids@);
    }
}

proof fn lemma_canonical_parent_absolute(
    tree: Tree,
    files: Map<Seq<Comp>, FileFacts>,
    cache: Cache,
    p: Seq<Comp>,
)
    requires
        path::is_absolute(p),
        rootfs::cache_absolute(cache),
    ensures
        match rootfs::canonical_parent(tree, files, cache, p).0 {
            Ok(q) => path::is_absolute(q),
            Err(_) => true,
        },
{
    if p.len() > 1 {
        rootfs::lemma_canonical_absolute(tree, files, cache, p.drop_last(), 0);
    }
}

/// An entry that fails fails the RECORD.
proof fn lemma_entries_error(
    tree: Tree,
    files: Map<Seq<Comp>, FileFacts>,
    site: Seq<Comp>,
    id: ComponentId,
    found: Found,
    entries: Seq<Seq<char>>,
    i: int,
)
    requires
        0 <= i <= entries.len(),
        with_entries(tree, files, site, id, found, entries.take(i)) is Err,
    ensures
        with_entries(tree, files, site, id, found, entries) == with_entries(
            tree,
            files,
            site,
            id,
            found,
            entries.take(i),
        ),
    decreases entries.len(),
{
    if i == entries.len() {
        assert(entries.take(i) =~= entries);
    } else {
        assert(entries.drop_last().take(i) =~= entries.take(i));
        lemma_entries_error(tree, files, site, id, found, entries.drop_last(), i);
    }
}

/// A file that fails fails the load.
proof fn lemma_files_error(
    tree: Tree,
    files: Map<Seq<Comp>, FileFacts>,
    paths: Seq<Seq<Comp>>,
    i: int,
)
    requires
        0 <= i <= paths.len(),
        with_files(tree, files, paths.take(i)) is Err,
    ensures
        with_files(tree, files, paths) == with_files(tree, files, paths.take(i)),
    decreases paths.len(),
{
    if i == paths.len() {
        assert(paths.take(i) =~= paths);
    } else {
        assert(paths.drop_last().take(i) =~= paths.take(i));
        lemma_files_error(tree, files, paths.drop_last(), i);
    }
}

/// Reads a RECORD file and returns the paths listed in it.
pub fn read_record(rootfs: &Rootfs, path: &str) -> (r: Result<Vec<String>, RecordError>)
    requires
        rootfs.wf(),
    ensures
        match r {
            Ok(entries) => recorded(rootfs@, path::components(path@)) == Ok::<
                Seq<Seq<char>>,
                RecordError,
            >(text::string_views(entries@)),
            Err(e) => recorded(rootfs@, path::components(path@)) == Err::<
                Seq<Seq<char>>,
                RecordError,
            >(e),
        },
{
    proof {
        let p = path::components(path@);
        path::lemma_components_root();
        if path::is_absolute(p) {
            assert(path::root() =~= p.subrange(0, 1));
        } else if path::root().is_prefix_of(p) {
            assert(path::root()[0] == p.subrange(0, 1)[0]);
        }
    }
    let rel: &str = match path::path_strip_prefix(path, "/") {
        Some(rel) => rel,
        None => path,
    };
    match rootfs.files.get(rel) {
        None => Err(RecordError::Open),
        Some(file) => match rootfs::read_file_contents_to_string_checked(file, RECORD_MAX_SIZE) {
            Ok(contents) => Ok(record::parse_record(contents.as_str())),
            Err(e) => Err(RecordError::Read(e)),
        },
    }
}

/// Whether the claims on each path name at least one component, each of the first
/// `n` ones at most once.
pub open spec fn claims_valid(claims: Map<Seq<Comp>, Seq<ComponentId>>, n: nat) -> bool {
    forall|p: Seq<Comp>| #[trigger]
        claims.contains_key(p) ==> {
            &&& claims[p].len() > 0
            &&& claims[p].no_duplicates()
            &&& forall|i: int| 0 <= i < claims[p].len() ==> (#[trigger] claims[p][i]).0 < n
        }
}

/// What a load finds: `None` where there is no readable RECORD.
pub open spec fn loaded(
    tree: Tree,
    files: Map<Seq<Comp>, FileFacts>,
    paths: Seq<Seq<Comp>>,
) -> Result<Option<Found>, LoadFailure> {
    match with_files(tree, files, paths) {
        Err(e) => Err(e),
        Ok(found) => if found.names.len() == 0 {
            Ok(None)
        } else {
            Ok(
                Some(
                    Found {
                        names: found.names,
                        claims: with_all_bytecode(files, found.claims, paths),
                        cache: found.cache,
                    },
                ),
            )
        },
    }
}

/// Python distributions components repo.
///
/// Claims files listed in `*.dist-info/RECORD` files found anywhere in the rootfs,
/// as specified by PEP 376 ("Recording installed projects",
/// <https://packaging.python.org/en/latest/specifications/recording-installed-packages/>).
/// Any installer that follows the spec (pip, uv, ...) is supported.
///
/// Distributions without a RECORD are ignored. Per the spec, distro package
/// managers remove RECORD to mark a distribution as managed by them (e.g. Fedora),
/// in which case the rpm/alpm repos own those files anyway.
///
/// Distributions with the same normalized name found in multiple locations (e.g.
/// multiple Python versions or venvs) are merged into one component.
#[derive(Debug)]
pub struct PipRepo {
    /// Normalized distribution names, indexed by ComponentId.
    pub components: IndexSet<String>,
    /// Mapping from path to the component(s) that claim it. Directories may be
    /// shared between multiple distributions (e.g. namespace packages).
    pub path_to_components: PathMap<Vec<ComponentId>>,
    pub default_mtime_clamp: u64,
    pub stability: Stability,
}

impl PipRepo {
    /// Whether the repo is that of what has been found.
    pub open spec fn is_of(&self, found: Found, default_mtime_clamp: u64) -> bool {
        &&& index_set_items(self.components) == found.names
        &&& self.path_to_components@ == found.claims
        &&& self.default_mtime_clamp == default_mtime_clamp
        &&& self.stability == (Stability::Interval { days: DEFAULT_UPDATE_INTERVAL_DAYS })
    }

    /// Loads the pip repo by finding all RECORD files in the scanned rootfs.
    /// Returns `None` if no Python distributions are installed.
    pub fn load(rootfs: &Rootfs, files: &FileMap, default_mtime_clamp: u64) -> (r: Result<
        Option<Self>,
        LoadError,
    >)
        requires
            rootfs.wf(),
            files.wf(),
        ensures
            match r {
                Err(e) => loaded(rootfs@, files@, files.keys()) == Err::<Option<Found>, LoadFailure>(
                    e@,
                ),
                Ok(None) => loaded(rootfs@, files@, files.keys()) == Ok::<
                    Option<Found>,
                    LoadFailure,
                >(None),
                Ok(Some(repo)) => {
                    &&& repo.wf()
                    &&& loaded(rootfs@, files@, files.keys()) matches Ok(Some(found))
                    &&& repo.is_of(found, default_mtime_clamp)
                },
            },
    {
        let mut loading = Loading {
            components: index_set_new(),
            claims: PathMap::new(),
            cache: PathMap::new(),
        };
        let ghost keys = files.keys();
        let mut i: usize = 0;
        proof {
            files.lemma_keys();
            assert(keys.take(0) =~= Seq::<Seq<Comp>>::empty());
            assert(loading@ == Found {
                names: Seq::empty(),
                claims: Map::empty(),
                cache: Map::empty(),
            });
        }
        while i < files.len()
            invariant
                rootfs.wf(),
                files.wf(),
                loading.wf(),
                keys == files.keys(),
                i <= keys.len(),
                with_files(rootfs@, files@, keys.take(i as int)) == Ok::<Found, LoadFailure>(
                    loading@,
                ),
            decreases keys.len() - i,
        {
            proof {
                assert(keys.take(i + 1).drop_last() =~= keys.take(i as int));
                assert(keys.take(i + 1).last() == keys[i as int]);
            }
            match loading.load_file(rootfs, files, files.path_at(i), files.value_at(i)) {
                Ok(()) => {},
                Err(e) => {
                    proof {
                        lemma_files_error(rootfs@, files@, keys, i + 1);
                    }
                    return Err(e);
                },
            }
            i += 1;
        }
        assert(keys.take(i as int) =~= keys);
        if index_set_is_empty(&loading.components) {
            return Ok(None);
        }
        // Bytecode may have been compiled after installation (e.g. by
        // `compileall`), in which case it isn't in RECORD. Claim it for the
        // component that owns the corresponding source file.
        let ghost found = loading@;
        i = 0;
        assert(keys.take(0) =~= Seq::<Seq<Comp>>::empty());
        while i < files.len()
            invariant
                files.wf(),
                loading.wf(),
                keys == files.keys(),
                i <= keys.len(),
                index_set_items(loading.components) == found.names,
                loading.claims@ == with_all_bytecode(files@, found.claims, keys.take(i as int)),
            decreases keys.len() - i,
        {
            assert(keys.take(i + 1).drop_last() =~= keys.take(i as int));
            loading.claim_bytecode(files, files.path_at(i), files.value_at(i));
            i += 1;
        }
        assert(keys.take(i as int) =~= keys);
        proof {
            lemma_loaded_valid(rootfs@, files@, keys);
        }
        Ok(
            Some(
                PipRepo {
                    components: loading.components,
                    path_to_components: loading.claims,
                    default_mtime_clamp,
                    stability: Stability::Interval { days: DEFAULT_UPDATE_INTERVAL_DAYS },
                },
            ),
        )
    }
}

impl ComponentsRepo for PipRepo {
    open spec fn wf(&self) -> bool {
        &&& self.path_to_components.wf()
        &&& index_set_items(self.components).no_duplicates()
        &&& claims_valid(self.path_to_components@, index_set_items(self.components).len())
    }

    open spec fn repo_name(&self) -> Seq<char> {
        REPO_NAME@
    }

    open spec fn priority(&self) -> usize {
        DEFAULT_PRIORITY
    }

    open spec fn has_component(&self, id: ComponentId) -> bool {
        id.0 < index_set_items(self.components).len()
    }

    open spec fn facts(&self, id: ComponentId) -> ComponentFacts {
        ComponentFacts {
            name: index_set_items(self.components)[id.0 as int],
            mtime_clamp: self.default_mtime_clamp,
            stability: self.stability,
        }
    }

    open spec fn strong_claims(&self, path: Seq<Comp>, info: FileFacts) -> Seq<ComponentId> {
        claimants(self.path_to_components@, path)
    }

    open spec fn weak_claims(&self, tree: Tree, path: Seq<Comp>, info: FileFacts) -> Answer {
        Ok(Seq::empty())
    }

    fn name(&self) -> (r: &'static str) {
        REPO_NAME
    }

    fn default_priority(&self) -> (r: usize) {
        DEFAULT_PRIORITY
    }

    fn strong_claims_for_path(&self, path: &str, _file_info: &FileInfo) -> (r: Vec<ComponentId>) {
        copy_claimants(&self.path_to_components, path)
    }

    fn weak_claims_for_path(
        &self,
        _rootfs: &Rootfs,
        _path: &str,
        _file_info: &FileInfo,
    ) -> (r: Result<Vec<ComponentId>, RepoError>) {
        Ok(Vec::new())
    }

    fn component_info(&self, id: ComponentId) -> (r: ComponentInfo<'_>) {
        ComponentInfo {
            name: index_set_at(&self.components, id.0),
            mtime_clamp: self.default_mtime_clamp,
            stability: self.stability,
        }
    }
}

proof fn lemma_claim_valid(
    claims: Map<Seq<Comp>, Seq<ComponentId>>,
    path: Seq<Comp>,
    id: ComponentId,
    n: nat,
)
    requires
        claims_valid(claims, n),
        id.0 < n,
    ensures
        claims_valid(with_claim(claims, path, id), n),
{
    let ids = claimants(claims, path);
    let next = with_claim(claims, path, id);
    if !ids.contains(id) {
        lists::lemma_push_unique(ids, id);
    } else {
        assert(ids.len() > 0);
    }
    assert forall|p: Seq<Comp>| #[trigger] next.contains_key(p) implies {
        &&& next[p].len() > 0
        &&& next[p].no_duplicates()
        &&& forall|i: int| 0 <= i < next[p].len() ==> (#[trigger] next[p][i]).0 < n
    } by {
        if p != path {
            assert(claims.contains_key(p));
        }
    }
}

proof fn lemma_claims_valid(
    claims: Map<Seq<Comp>, Seq<ComponentId>>,
    paths: Seq<Seq<Comp>>,
    id: ComponentId,
    n: nat,
)
    requires
        claims_valid(claims, n),
        id.0 < n,
    ensures
        claims_valid(with_claims(claims, paths, id), n),
    decreases paths.len(),
{
    if paths.len() > 0 {
        lemma_claims_valid(claims, paths.drop_last(), id, n);
        lemma_claim_valid(with_claims(claims, paths.drop_last(), id), paths.last(), id, n);
    }
}

proof fn lemma_entries_valid(
    tree: Tree,
    files: Map<Seq<Comp>, FileFacts>,
    site: Seq<Comp>,
    id: ComponentId,
    found: Found,
    entries: Seq<Seq<char>>,
)
    requires
        claims_valid(found.claims, found.names.len()),
        id.0 < found.names.len(),
    ensures
        with_entries(tree, files, site, id, found, entries) matches Ok(after) ==> {
            &&& after.names == found.names
            &&& claims_valid(after.claims, found.names.len())
        },
    decreases entries.len(),
{
    if entries.len() > 0 {
        lemma_entries_valid(tree, files, site, id, found, entries.drop_last());
        if let Ok(before) = with_entries(tree, files, site, id, found, entries.drop_last()) {
            let path = entry_path(site, entries.last());
            if let Ok(file) = rootfs::canonical_parent(tree, files, before.cache, path).0 {
                lemma_claims_valid(
                    before.claims,
                    seq![file] + dirs_between(site, file),
                    id,
                    found.names.len(),
                );
            }
        }
    }
}

/// The names found are all different, and the claims are those of components that are
/// there.
pub proof fn lemma_files_valid(tree: Tree, files: Map<Seq<Comp>, FileFacts>, paths: Seq<Seq<Comp>>)
    ensures
        with_files(tree, files, paths) matches Ok(found) ==> {
            &&& found.names.no_duplicates()
            &&& claims_valid(found.claims, found.names.len())
        },
    decreases paths.len(),
{
    if paths.len() > 0 {
        lemma_files_valid(tree, files, paths.drop_last());
        let p = paths.last();
        if let Ok(found) = with_files(tree, files, paths.drop_last()) {
            if let (Some((dist_info, name)), Ok(entries)) = (
                record::record_of(p),
                recorded(tree, p),
            ) {
                let (names, id) = with_name(found.names, name);
                if found.names.contains(name) {
                    assert(found.names[found.names.index_of(name)] == name);
                } else {
                    lists::lemma_push_unique(found.names, name);
                }
                assert(claims_valid(found.claims, names.len()));
                lemma_entries_valid(
                    tree,
                    files,
                    dist_info.drop_last(),
                    ComponentId(id as usize),
                    Found { names, claims: found.claims, cache: found.cache },
                    entries,
                );
            }
        }
    }
}

proof fn lemma_bytecode_of_valid(
    claims: Map<Seq<Comp>, Seq<ComponentId>>,
    p: Seq<Comp>,
    ids: Seq<ComponentId>,
    n: nat,
)
    requires
        claims_valid(claims, n),
        forall|i: int| 0 <= i < ids.len() ==> (#[trigger] ids[i]).0 < n,
    ensures
        claims_valid(with_bytecode_of(claims, p, ids), n),
    decreases ids.len(),
{
    if ids.len() > 0 {
        assert(ids.last() == ids[ids.len() - 1]);
        assert forall|i: int| 0 <= i < ids.drop_last().len() implies (
        #[trigger] ids.drop_last()[i]).0 < n by {
            assert(ids.drop_last()[i] == ids[i]);
        }
        lemma_bytecode_of_valid(claims, p, ids.drop_last(), n);
        lemma_claims_valid(
            with_bytecode_of(claims, p, ids.drop_last()),
            seq![p, p.drop_last()],
            ids.last(),
            n,
        );
    }
}

proof fn lemma_all_bytecode_valid(
    files: Map<Seq<Comp>, FileFacts>,
    claims: Map<Seq<Comp>, Seq<ComponentId>>,
    paths: Seq<Seq<Comp>>,
    n: nat,
)
    requires
        claims_valid(claims, n),
    ensures
        claims_valid(with_all_bytecode(files, claims, paths), n),
    decreases paths.len(),
{
    if paths.len() > 0 {
        lemma_all_bytecode_valid(files, claims, paths.drop_last(), n);
        let before = with_all_bytecode(files, claims, paths.drop_last());
        if let Some(source) = record::source_of(paths.last()) {
            let ids = claimants(before, source);
            assert forall|i: int| 0 <= i < ids.len() implies (#[trigger] ids[i]).0 < n by {
                assert(before.contains_key(source));
            }
            lemma_bytecode_of_valid(before, paths.last(), ids, n);
        }
    }
}

/// The names that a load finds are all different, so that distributions of one
/// name are one component, and no path is claimed twice by a component or by one
/// that is not there.
pub proof fn lemma_loaded_valid(
    tree: Tree,
    files: Map<Seq<Comp>, FileFacts>,
    paths: Seq<Seq<Comp>>,
)
    ensures
        loaded(tree, files, paths) matches Ok(Some(found)) ==> {
            &&& found.names.no_duplicates()
            &&& claims_valid(found.claims, found.names.len())
        },
{
    lemma_files_valid(tree, files, paths);
    if let Ok(found) = with_files(tree, files, paths) {
        lemma_all_bytecode_valid(files, found.claims, paths, found.names.len());
    }
}

} // verus!
