//! What holds of every load of Python distributions.
use vstd::prelude::*;

use crate::canonical_laws;
use crate::components::{ComponentId, ComponentsRepo};
use crate::file_info::{FileFacts, FileType};
use crate::lists;
use crate::path;
use crate::path::Comp;
use crate::pip;
use crate::pip::{Found, LoadFailure};
use crate::record;
use crate::record_laws;
use crate::rootfs;
use crate::rootfs::Tree;
use crate::stability::Stability;

verus! {

pub type Claims = Map<Seq<Comp>, Seq<ComponentId>>;

pub type FileSet = Map<Seq<Comp>, FileFacts>;

/// Whether a component claims a path.
pub open spec fn claims_path(claims: Claims, p: Seq<Comp>, id: ComponentId) -> bool {
    pip::claimants(claims, p).contains(id)
}

/// Whether a file is a RECORD that can be read.
pub open spec fn is_readable_record(tree: Tree, files: FileSet, p: Seq<Comp>) -> bool {
    &&& record::record_of(p) is Some
    &&& pip::recorded(tree, p) is Ok
    &&& files[p].file_type == FileType::File
}

/// Whether a path stands for a file: the directory that the file is in is where the
/// directory of the path leads, and both have one name.
pub open spec fn stands_for(tree: Tree, files: FileSet, p: Seq<Comp>, file: Seq<Comp>) -> bool {
    if p.len() <= 1 {
        file == p
    } else {
        &&& file.len() > 0
        &&& file.last() == p.last()
        &&& canonical_laws::leads_to(tree, files, p.drop_last(), file.drop_last())
    }
}

// -------------------------------------------------------------------- claims

/// A claim adds one claimant to one path, and changes nothing else.
pub proof fn lemma_claim(claims: Claims, p: Seq<Comp>, id: ComponentId)
    ensures
        forall|q: Seq<Comp>, other: ComponentId| #[trigger]
            claims_path(pip::with_claim(claims, p, id), q, other) <==> claims_path(
                claims,
                q,
                other,
            ) || q == p && other == id,
{
    assert forall|q: Seq<Comp>, other: ComponentId| #[trigger]
        claims_path(pip::with_claim(claims, p, id), q, other) <==> claims_path(claims, q, other)
            || q == p && other == id by {
        lists::lemma_push_contains(pip::claimants(claims, p), id);
    }
}

/// A claim that is there already changes nothing.
pub proof fn lemma_claim_twice(claims: Claims, p: Seq<Comp>, id: ComponentId)
    ensures
        pip::with_claim(pip::with_claim(claims, p, id), p, id) == pip::with_claim(claims, p, id),
{
    let once = pip::with_claim(claims, p, id);
    lists::lemma_push_contains(pip::claimants(claims, p), id);
    assert(pip::claimants(once, p).contains(id));
    assert(pip::with_claim(once, p, id) =~= once);
}

proof fn lemma_claims(claims: Claims, paths: Seq<Seq<Comp>>, id: ComponentId)
    ensures
        forall|q: Seq<Comp>, other: ComponentId| #[trigger]
            claims_path(pip::with_claims(claims, paths, id), q, other) <==> claims_path(
                claims,
                q,
                other,
            ) || paths.contains(q) && other == id,
    decreases paths.len(),
{
    if paths.len() > 0 {
        let front = paths.drop_last();
        lemma_claims(claims, front, id);
        lemma_claim(pip::with_claims(claims, front, id), paths.last(), id);
        assert forall|q: Seq<Comp>, other: ComponentId| #[trigger]
            claims_path(pip::with_claims(claims, paths, id), q, other) <==> claims_path(
                claims,
                q,
                other,
            ) || paths.contains(q) && other == id by {
            assert(claims_path(pip::with_claims(claims, front, id), q, other) <==> claims_path(
                claims,
                q,
                other,
            ) || front.contains(q) && other == id);
            if paths.contains(q) {
                let i = paths.index_of(q);
                if i < front.len() {
                    assert(front[i] == q);
                }
            }
            if front.contains(q) {
                assert(paths[front.index_of(q)] == q);
            }
            assert(paths[paths.len() - 1] == paths.last());
        }
    }
}

/// Whether all the claims are kept.
pub open spec fn kept(before: Claims, after: Claims) -> bool {
    forall|q: Seq<Comp>, id: ComponentId| #[trigger]
        claims_path(before, q, id) ==> claims_path(after, q, id)
}

// ------------------------------------------------------------------- RECORDs

/// Whether an entry gives `q` to its component: it stands for a file of the root file
/// system, and `q` is that file or a directory above it and below `site`.
pub open spec fn entry_gives(
    tree: Tree,
    files: FileSet,
    site: Seq<Comp>,
    entry: Seq<char>,
    q: Seq<Comp>,
) -> bool {
    exists|file: Seq<Comp>| #[trigger]
        files.contains_key(file) && stands_for(tree, files, pip::entry_path(site, entry), file) && (q
            == file || pip::dirs_between(site, file).contains(q))
}

/// Whether one of the entries gives `q` to their component.
pub open spec fn entries_give(
    tree: Tree,
    files: FileSet,
    site: Seq<Comp>,
    entries: Seq<Seq<char>>,
    q: Seq<Comp>,
) -> bool {
    exists|i: int|
        0 <= i < entries.len() && entry_gives(tree, files, site, #[trigger] entries[i], q)
}

/// Whether a file is a readable RECORD that gives `q` to its component.
pub open spec fn record_gives(tree: Tree, files: FileSet, r: Seq<Comp>, q: Seq<Comp>) -> bool {
    is_readable_record(tree, files, r) && entries_give(
        tree,
        files,
        (record::record_of(r)->Some_0).0.drop_last(),
        pip::recorded(tree, r)->Ok_0,
        q,
    )
}

/// The component of a RECORD, given the names of the components.
pub open spec fn component_of(names: Seq<Seq<char>>, r: Seq<Comp>) -> ComponentId {
    ComponentId(names.index_of((record::record_of(r)->Some_0).1) as usize)
}

/// Whether one of these files is a readable RECORD of the component `id` that gives it
/// `q`.
pub open spec fn is_listed(
    tree: Tree,
    files: FileSet,
    paths: Seq<Seq<Comp>>,
    names: Seq<Seq<char>>,
    q: Seq<Comp>,
    id: ComponentId,
) -> bool {
    exists|r: Seq<Comp>| #[trigger]
        paths.contains(r) && record_gives(tree, files, r, q) && component_of(names, r) == id
}

/// Whether one of these files is a readable RECORD of this name.
pub open spec fn has_record(
    tree: Tree,
    files: FileSet,
    paths: Seq<Seq<Comp>>,
    name: Seq<char>,
) -> bool {
    exists|r: Seq<Comp>| #[trigger]
        paths.contains(r) && is_readable_record(tree, files, r) && (record::record_of(
            r,
        )->Some_0).1 == name
}

/// What one entry adds.
proof fn lemma_entry(
    tree: Tree,
    files: FileSet,
    site: Seq<Comp>,
    id: ComponentId,
    found: Found,
    entry: Seq<char>,
)
    requires
        canonical_laws::cache_true(tree, files, found.cache),
    ensures
        pip::with_entry(tree, files, site, id, found, entry) matches Ok(after) ==> {
            &&& after.names == found.names
            &&& canonical_laws::cache_true(tree, files, after.cache)
            &&& forall|q: Seq<Comp>, other: ComponentId| #[trigger]
                claims_path(after.claims, q, other) <==> claims_path(found.claims, q, other)
                    || other == id && entry_gives(tree, files, site, entry, q)
        },
{
    let path = pip::entry_path(site, entry);
    let (canonical, cache) = rootfs::canonical_parent(tree, files, found.cache, path);
    if let Ok(after) = pip::with_entry(tree, files, site, id, found, entry) {
        if let Ok(c) = canonical {
            let all = seq![c] + pip::dirs_between(site, c);
            lemma_claims(found.claims, all, id);
            assert forall|q: Seq<Comp>| #[trigger] all.contains(q) <==> q == c
                || pip::dirs_between(site, c).contains(q) by {
                if all.contains(q) {
                    let i = all.index_of(q);
                    if i > 0 {
                        assert(pip::dirs_between(site, c)[i - 1] == q);
                    }
                }
                if pip::dirs_between(site, c).contains(q) {
                    assert(all[pip::dirs_between(site, c).index_of(q) + 1] == q);
                }
                assert(all[0] == c);
            }
            // the file that the path stands for is the canonical one
            if path.len() > 1 {
                let up = path.drop_last();
                let dir = rootfs::canonical_dir(tree, files, found.cache, up, 0).0->Ok_0;
                canonical_laws::lemma_cache_transparent(tree, files, found.cache, up, 0);
                assert(c.drop_last() =~= dir);
                assert(stands_for(tree, files, path, c));
                assert forall|file: Seq<Comp>| stands_for(tree, files, path, file) implies file
                    == c by {
                    canonical_laws::lemma_leads_to_one(tree, files, up, dir, file.drop_last());
                    assert(file =~= file.drop_last().push(file.last()));
                    assert(c =~= c.drop_last().push(c.last()));
                }
            }
            assert forall|q: Seq<Comp>, other: ComponentId| #[trigger]
                claims_path(after.claims, q, other) <==> claims_path(found.claims, q, other)
                    || other == id && entry_gives(tree, files, site, entry, q) by {
                if files.contains_key(c) {
                    assert(entry_gives(tree, files, site, entry, q) <==> all.contains(q));
                }
            }
        }
    }
}

/// What the entries of a RECORD add.
proof fn lemma_entries(
    tree: Tree,
    files: FileSet,
    site: Seq<Comp>,
    id: ComponentId,
    found: Found,
    entries: Seq<Seq<char>>,
)
    requires
        canonical_laws::cache_true(tree, files, found.cache),
    ensures
        pip::with_entries(tree, files, site, id, found, entries) matches Ok(after) ==> {
            &&& after.names == found.names
            &&& canonical_laws::cache_true(tree, files, after.cache)
            &&& forall|q: Seq<Comp>, other: ComponentId| #[trigger]
                claims_path(after.claims, q, other) <==> claims_path(found.claims, q, other)
                    || other == id && entries_give(tree, files, site, entries, q)
        },
    decreases entries.len(),
{
    if entries.len() > 0 {
        let front = entries.drop_last();
        lemma_entries(tree, files, site, id, found, front);
        if let Ok(before) = pip::with_entries(tree, files, site, id, found, front) {
            lemma_entry(tree, files, site, id, before, entries.last());
            assert forall|q: Seq<Comp>| #[trigger]
                entries_give(tree, files, site, entries, q) <==> entries_give(
                    tree,
                    files,
                    site,
                    front,
                    q,
                ) || entry_gives(tree, files, site, entries.last(), q) by {
                if entries_give(tree, files, site, entries, q) {
                    let i = choose|i: int|
                        0 <= i < entries.len() && entry_gives(
                            tree,
                            files,
                            site,
                            #[trigger] entries[i],
                            q,
                        );
                    if i < front.len() {
                        assert(front[i] == entries[i]);
                    }
                }
                if entries_give(tree, files, site, front, q) {
                    let i = choose|i: int|
                        0 <= i < front.len() && entry_gives(
                            tree,
                            files,
                            site,
                            #[trigger] front[i],
                            q,
                        );
                    assert(entries[i] == front[i]);
                }
                if entry_gives(tree, files, site, entries.last(), q) {
                    assert(entries[entries.len() - 1] == entries.last());
                }
            }
        }
    }
}

/// What is found when these files have been looked at.
proof fn lemma_files(tree: Tree, files: FileSet, paths: Seq<Seq<Comp>>)
    ensures
        pip::with_files(tree, files, paths) matches Ok(found) ==> {
            &&& found.names.no_duplicates()
            &&& canonical_laws::cache_true(tree, files, found.cache)
            &&& forall|r: Seq<Comp>| #[trigger]
                paths.contains(r) && is_readable_record(tree, files, r) ==> found.names.contains(
                    (record::record_of(r)->Some_0).1,
                )
            &&& forall|name: Seq<char>| #[trigger]
                found.names.contains(name) ==> has_record(tree, files, paths, name)
            &&& forall|q: Seq<Comp>, id: ComponentId| #[trigger]
                claims_path(found.claims, q, id) <==> is_listed(
                    tree,
                    files,
                    paths,
                    found.names,
                    q,
                    id,
                )
        },
    decreases paths.len(),
{
    if paths.len() > 0 {
        let front = paths.drop_last();
        let p = paths.last();
        lemma_files(tree, files, front);
        assert(front.push(p) =~= paths);
        lists::lemma_push_contains(front, p);
        assert forall|name: Seq<char>| #[trigger]
            has_record(tree, files, front, name) implies has_record(tree, files, paths, name) by {
            let r = choose|r: Seq<Comp>| #[trigger]
                front.contains(r) && is_readable_record(tree, files, r) && (record::record_of(
                    r,
                )->Some_0).1 == name;
            assert(front.push(p).contains(r));
        }
        if let Ok(found) = pip::with_files(tree, files, front) {
            if is_readable_record(tree, files, p) {
                let (dist_info, name) = record::record_of(p)->Some_0;
                let entries = pip::recorded(tree, p)->Ok_0;
                let (names, id) = pip::with_name(found.names, name);
                lemma_with_name(found.names, name);
                let start = Found { names, claims: found.claims, cache: found.cache };
                lemma_entries(
                    tree,
                    files,
                    dist_info.drop_last(),
                    ComponentId(id as usize),
                    start,
                    entries,
                );
                assert forall|r: Seq<Comp>|
                    front.contains(r) && is_readable_record(tree, files, r) implies names.contains(
                    (record::record_of(r)->Some_0).1,
                ) && #[trigger] component_of(names, r) == component_of(found.names, r) by {
                    lemma_name_stays(found.names, name, (record::record_of(r)->Some_0).1);
                }
                assert(component_of(names, p) == ComponentId(id as usize));
                assert forall|q: Seq<Comp>, other: ComponentId| #[trigger]
                    is_listed(tree, files, paths, names, q, other) <==> is_listed(
                        tree,
                        files,
                        front,
                        found.names,
                        q,
                        other,
                    ) || other == ComponentId(id as usize) && record_gives(tree, files, p, q) by {
                    if is_listed(tree, files, paths, names, q, other) {
                        let r = choose|r: Seq<Comp>| #[trigger]
                            paths.contains(r) && record_gives(tree, files, r, q) && component_of(
                                names,
                                r,
                            ) == other;
                        if r != p {
                            assert(front.contains(r));
                            assert(component_of(names, r) == component_of(found.names, r));
                        }
                    }
                    if is_listed(tree, files, front, found.names, q, other) {
                        let r = choose|r: Seq<Comp>| #[trigger]
                            front.contains(r) && record_gives(tree, files, r, q) && component_of(
                                found.names,
                                r,
                            ) == other;
                        assert(front.push(p).contains(r));
                        assert(component_of(names, r) == component_of(found.names, r));
                    }
                    assert(front.push(p).contains(p));
                }
                if let Ok(after) = pip::with_files(tree, files, paths) {
                    assert forall|other: Seq<char>| #[trigger]
                        after.names.contains(other) implies has_record(
                        tree,
                        files,
                        paths,
                        other,
                    ) by {
                        lists::lemma_push_contains(found.names, name);
                        if other == name {
                            assert(front.push(p).contains(p));
                        } else {
                            assert(found.names.contains(other));
                        }
                    }
                    assert forall|q: Seq<Comp>, other: ComponentId| #[trigger]
                        claims_path(after.claims, q, other) <==> is_listed(
                            tree,
                            files,
                            paths,
                            after.names,
                            q,
                            other,
                        ) by {
                        assert(claims_path(found.claims, q, other) <==> is_listed(
                            tree,
                            files,
                            front,
                            found.names,
                            q,
                            other,
                        ));
                    }
                    assert forall|r: Seq<Comp>| #[trigger]
                        paths.contains(r) && is_readable_record(
                            tree,
                            files,
                            r,
                        ) implies after.names.contains((record::record_of(r)->Some_0).1) by {
                        if r != p {
                            assert(front.contains(r));
                            assert(component_of(names, r) == component_of(found.names, r));
                        }
                    }
                }
            } else {
                lemma_listed_skip(tree, files, front, p, found.names);
            }
        }
    }
}

/// A file that is no readable RECORD lists nothing.
proof fn lemma_listed_skip(
    tree: Tree,
    files: FileSet,
    front: Seq<Seq<Comp>>,
    p: Seq<Comp>,
    names: Seq<Seq<char>>,
)
    requires
        !is_readable_record(tree, files, p),
    ensures
        forall|q: Seq<Comp>, id: ComponentId| #[trigger]
            is_listed(tree, files, front.push(p), names, q, id) <==> is_listed(
                tree,
                files,
                front,
                names,
                q,
                id,
            ),
{
    lists::lemma_push_contains(front, p);
    assert forall|q: Seq<Comp>, id: ComponentId| #[trigger]
        is_listed(tree, files, front.push(p), names, q, id) <==> is_listed(
            tree,
            files,
            front,
            names,
            q,
            id,
        ) by {
        if is_listed(tree, files, front, names, q, id) {
            let r = choose|r: Seq<Comp>| #[trigger]
                front.contains(r) && record_gives(tree, files, r, q) && component_of(names, r)
                    == id;
            assert(front.push(p).contains(r));
        }
    }
}

proof fn lemma_with_name(names: Seq<Seq<char>>, name: Seq<char>)
    requires
        names.no_duplicates(),
    ensures
        pip::with_name(names, name).0.no_duplicates(),
        pip::with_name(names, name).0.contains(name),
        pip::with_name(names, name).0.index_of(name) == pip::with_name(names, name).1,
{
    let (after, id) = pip::with_name(names, name);
    if !names.contains(name) {
        assert forall|a: int, b: int|
            0 <= a < after.len() && 0 <= b < after.len() && a != b implies after[a] != after[b] by {
            if a == names.len() {
                assert(names.contains(names[b]));
            } else if b == names.len() {
                assert(names.contains(names[a]));
            }
        }
        assert(after[names.len() as int] == name);
        let k = after.index_of(name);
        assert(after[k] == name);
    }
}

proof fn lemma_name_stays(names: Seq<Seq<char>>, name: Seq<char>, other: Seq<char>)
    requires
        names.no_duplicates(),
        names.contains(other),
    ensures
        pip::with_name(names, name).0.contains(other),
        pip::with_name(names, name).0.index_of(other) == names.index_of(other),
{
    lemma_with_name(names, name);
    let (after, id) = pip::with_name(names, name);
    let k = names.index_of(other);
    assert(after[k] == other);
    let l = after.index_of(other);
    assert(after[l] == other);
}

/// What the bytecode file `p` adds when it goes to these components.
proof fn lemma_bytecode_of(claims: Claims, p: Seq<Comp>, ids: Seq<ComponentId>)
    ensures
        forall|q: Seq<Comp>, id: ComponentId| #[trigger]
            claims_path(pip::with_bytecode_of(claims, p, ids), q, id) <==> claims_path(
                claims,
                q,
                id,
            ) || ids.contains(id) && (q == p || q == p.drop_last()),
    decreases ids.len(),
{
    if ids.len() > 0 {
        let front = ids.drop_last();
        let both = seq![p, p.drop_last()];
        lemma_bytecode_of(claims, p, front);
        lemma_claims(pip::with_bytecode_of(claims, p, front), both, ids.last());
        assert(front.push(ids.last()) =~= ids);
        lists::lemma_push_contains(front, ids.last());
        assert(both[0] == p && both[1] == p.drop_last());
        assert forall|q: Seq<Comp>, id: ComponentId| #[trigger]
            claims_path(pip::with_bytecode_of(claims, p, ids), q, id) <==> claims_path(
                claims,
                q,
                id,
            ) || ids.contains(id) && (q == p || q == p.drop_last()) by {
            assert(both.contains(q) <==> q == p || q == p.drop_last());
            assert(claims_path(pip::with_bytecode_of(claims, p, front), q, id) <==> claims_path(
                claims,
                q,
                id,
            ) || front.contains(id) && (q == p || q == p.drop_last()));
        }
    }
}

/// Whether a path is that of a bytecode file among these files, or of a directory that
/// one is in.
pub open spec fn is_of_bytecode(paths: Seq<Seq<Comp>>, q: Seq<Comp>) -> bool {
    exists|p: Seq<Comp>| #[trigger]
        paths.contains(p) && record::source_of(p) is Some && (q == p || q == p.drop_last())
}

/// The look at bytecode keeps all claims, and adds none to what is no bytecode.
proof fn lemma_all_bytecode(files: FileSet, claims: Claims, paths: Seq<Seq<Comp>>)
    ensures
        kept(claims, pip::with_all_bytecode(files, claims, paths)),
        forall|q: Seq<Comp>, id: ComponentId|
            !is_of_bytecode(paths, q) && #[trigger] claims_path(
                pip::with_all_bytecode(files, claims, paths),
                q,
                id,
            ) ==> claims_path(claims, q, id),
    decreases paths.len(),
{
    if paths.len() > 0 {
        let front = paths.drop_last();
        let last = paths.last();
        let before = pip::with_all_bytecode(files, claims, front);
        let after = pip::with_all_bytecode(files, claims, paths);
        lemma_all_bytecode(files, claims, front);
        assert(front.push(last) =~= paths);
        lists::lemma_push_contains(front, last);
        if let Some(source) = record::source_of(last) {
            lemma_bytecode_of(before, last, pip::claimants(before, source));
        }
        assert forall|q: Seq<Comp>, id: ComponentId|
            !is_of_bytecode(paths, q) && #[trigger] claims_path(after, q, id) implies claims_path(
            claims,
            q,
            id,
        ) by {
            assert(front.push(last).contains(last));
            if is_of_bytecode(front, q) {
                let p = choose|p: Seq<Comp>| #[trigger]
                    front.contains(p) && record::source_of(p) is Some && (q == p || q
                        == p.drop_last());
                assert(front.push(last).contains(p));
            }
            assert(claims_path(before, q, id));
        }
    }
}

/// Who claims what: there is a component of a name if and only if there is a readable
/// RECORD of that name. A component claims what a readable RECORD of it lists, which is a
/// file of the root file system or a directory above one and below that of the
/// distribution. Bytecode apart, it claims nothing else.
pub proof fn lemma_claimed_if_listed(tree: Tree, files: FileSet, paths: Seq<Seq<Comp>>)
    ensures
        pip::loaded(tree, files, paths) matches Ok(Some(found)) ==> {
            &&& forall|r: Seq<Comp>| #[trigger]
                paths.contains(r) && is_readable_record(tree, files, r) ==> found.names.contains(
                    (record::record_of(r)->Some_0).1,
                )
            &&& forall|name: Seq<char>| #[trigger]
                found.names.contains(name) ==> has_record(tree, files, paths, name)
            &&& forall|q: Seq<Comp>, id: ComponentId| #[trigger]
                is_listed(tree, files, paths, found.names, q, id) ==> claims_path(
                    found.claims,
                    q,
                    id,
                )
            &&& forall|q: Seq<Comp>, id: ComponentId|
                !is_of_bytecode(paths, q) && #[trigger] claims_path(found.claims, q, id)
                    ==> is_listed(tree, files, paths, found.names, q, id)
        },
{
    lemma_files(tree, files, paths);
    if let Ok(found) = pip::with_files(tree, files, paths) {
        lemma_all_bytecode(files, found.claims, paths);
        let after = pip::with_all_bytecode(files, found.claims, paths);
        assert forall|q: Seq<Comp>, id: ComponentId| #[trigger]
            is_listed(tree, files, paths, found.names, q, id) implies claims_path(after, q, id) by {
            assert(claims_path(found.claims, q, id));
        }
    }
}

/// There are no distributions if and only if there is no RECORD that can be read.
pub proof fn lemma_none_without_record(tree: Tree, files: FileSet, paths: Seq<Seq<Comp>>)
    ensures
        pip::loaded(tree, files, paths) == Ok::<Option<Found>, pip::LoadFailure>(None)
            <==> forall|p: Seq<Comp>| #[trigger]
            paths.contains(p) ==> !is_readable_record(tree, files, p),
{
    lemma_no_names(tree, files, paths);
}

proof fn lemma_no_names(tree: Tree, files: FileSet, paths: Seq<Seq<Comp>>)
    ensures
        (pip::with_files(tree, files, paths) matches Ok(found) && found.names.len() == 0)
            <==> forall|p: Seq<Comp>| #[trigger]
            paths.contains(p) ==> !is_readable_record(tree, files, p),
    decreases paths.len(),
{
    if paths.len() > 0 {
        let front = paths.drop_last();
        let last = paths.last();
        lemma_no_names(tree, files, front);
        assert(paths[paths.len() - 1] == last);
        assert(paths.contains(last));
        assert forall|p: Seq<Comp>| #[trigger] front.contains(p) implies paths.contains(p) by {
            assert(paths[front.index_of(p)] == p);
        }
        assert forall|p: Seq<Comp>| #[trigger] paths.contains(p) && p
            != last implies front.contains(p) by {
            assert(front[paths.index_of(p)] == p);
        }
        if let Ok(found) = pip::with_files(tree, files, front) {
            if is_readable_record(tree, files, last) {
                let (dist_info, name) = record::record_of(last)->Some_0;
                let (names, id) = pip::with_name(found.names, name);
                lemma_entries_names(
                    tree,
                    files,
                    dist_info.drop_last(),
                    ComponentId(id as usize),
                    Found { names, claims: found.claims, cache: found.cache },
                    pip::recorded(tree, last)->Ok_0,
                );
                assert(names.len() > 0);
            }
        }
    }
}

proof fn lemma_entries_names(
    tree: Tree,
    files: FileSet,
    site: Seq<Comp>,
    id: ComponentId,
    found: Found,
    entries: Seq<Seq<char>>,
)
    ensures
        pip::with_entries(tree, files, site, id, found, entries) matches Ok(after) ==> after.names
            == found.names,
    decreases entries.len(),
{
    if entries.len() > 0 {
        lemma_entries_names(tree, files, site, id, found, entries.drop_last());
    }
}

// ------------------------------------------------------------------ bytecode

/// A source file is no bytecode, and in no directory of bytecode by its own name.
proof fn lemma_source_apart(p: Seq<Comp>, q: Seq<Comp>)
    requires
        record::source_of(p) is Some,
        record::source_of(q) is Some,
    ensures
        record::source_of(p)->Some_0 != q,
        record::source_of(p)->Some_0 != q.drop_last(),
        p != q.drop_last(),
{
    reveal_strlit(".py");
    reveal_strlit(".pyc");
    reveal_strlit("__pycache__");
    let dir = record::PYCACHE_DIR@;
    assert(dir.last() == '_');
    let up = q.drop_last();
    assert(up.last() == q[q.len() - 2]);
    lemma_pyc_end(p);
    lemma_pyc_end(q);
    let source = record::source_of(p)->Some_0;
    assert(source.last() matches Comp::Normal(name) && name.last() == 'y') by {
        assert(source.last() is Normal);
        let name = source.last()->Normal_0;
        let n = name.len() - record::PY_SUFFIX@.len();
        assert(name =~= name.take(n) + record::PY_SUFFIX@);
        assert(name[name.len() - 1] == record::PY_SUFFIX@[2]);
    }
}

proof fn lemma_pyc_end(p: Seq<Comp>)
    requires
        record::source_of(p) is Some,
    ensures
        p.last() matches Comp::Normal(name) && name.len() > 0 && name.last() == 'c',
{
    reveal_strlit(".pyc");
    let name = p.last()->Normal_0;
    let suffix = record::PYC_SUFFIX@;
    assert(suffix.is_suffix_of(name));
    assert(name.subrange(name.len() - suffix.len(), name.len() as int)[3] == suffix[3]);
}

/// Bytecode goes with its source: bytecode that no RECORD lists is claimed by exactly
/// the components that claim its source, and so is, among others, the directory that it
/// is in.
pub proof fn lemma_bytecode_claimed(
    tree: Tree,
    files: FileSet,
    paths: Seq<Seq<Comp>>,
    p: Seq<Comp>,
    source: Seq<Comp>,
)
    requires
        paths.contains(p),
        files[p].file_type == FileType::File,
        record::source_of(p) == Some(source),
        pip::loaded(tree, files, paths) matches Ok(Some(found)) && forall|id: ComponentId|
            !#[trigger] is_listed(tree, files, paths, found.names, p, id),
    ensures
        pip::loaded(tree, files, paths) matches Ok(Some(found)) && {
            &&& forall|id: ComponentId| #[trigger]
                claims_path(found.claims, p, id) <==> claims_path(found.claims, source, id)
            &&& forall|id: ComponentId| #[trigger]
                claims_path(found.claims, source, id) ==> claims_path(
                    found.claims,
                    p.drop_last(),
                    id,
                )
        },
{
    lemma_files(tree, files, paths);
    pip::lemma_files_valid(tree, files, paths);
    if let Ok(found) = pip::with_files(tree, files, paths) {
        let names = pip::loaded(tree, files, paths)->Ok_0->Some_0.names;
        assert(names == found.names);
        if found.claims.contains_key(p) {
            let id = found.claims[p][0];
            assert(pip::claimants(found.claims, p)[0] == id);
            assert(claims_path(found.claims, p, id));
            assert(is_listed(tree, files, paths, names, p, id));
        }
        lemma_bytecode_in(files, found.claims, paths, p, source);
    }
}

proof fn lemma_bytecode_in(
    files: FileSet,
    claims: Claims,
    paths: Seq<Seq<Comp>>,
    p: Seq<Comp>,
    source: Seq<Comp>,
)
    requires
        files[p].file_type == FileType::File,
        record::source_of(p) == Some(source),
        !claims.contains_key(p),
    ensures
        ({
            let after = pip::with_all_bytecode(files, claims, paths);
            &&& forall|id: ComponentId| #[trigger]
                claims_path(after, source, id) <==> claims_path(claims, source, id)
            &&& !paths.contains(p) ==> !after.contains_key(p)
            &&& paths.contains(p) ==> forall|id: ComponentId|
                (#[trigger] claims_path(after, p, id) <==> claims_path(after, source, id))
            &&& paths.contains(p) ==> forall|id: ComponentId| #[trigger]
                claims_path(after, source, id) ==> claims_path(after, p.drop_last(), id)
        }),
    decreases paths.len(),
{
    if paths.len() > 0 {
        let front = paths.drop_last();
        let last = paths.last();
        let before = pip::with_all_bytecode(files, claims, front);
        let after = pip::with_all_bytecode(files, claims, paths);
        lemma_bytecode_in(files, claims, front, p, source);
        assert(front.push(last) =~= paths);
        lists::lemma_push_contains(front, last);
        assert(front.push(last).contains(p) <==> p == last || front.contains(p));
        if let Some(other) = record::source_of(last) {
            let ids = pip::claimants(before, other);
            lemma_bytecode_of(before, last, ids);
            lemma_source_apart(p, last);
            if last != p {
                lemma_bytecode_domain(before, last, ids, p);
            }
        }
        assert forall|id: ComponentId| #[trigger]
            claims_path(after, source, id) <==> claims_path(claims, source, id) by {
            assert(claims_path(before, source, id) <==> claims_path(claims, source, id));
        }
        if paths.contains(p) {
            assert forall|id: ComponentId|
                (#[trigger] claims_path(after, p, id) <==> claims_path(after, source, id)) by {
                assert(claims_path(before, source, id) <==> claims_path(after, source, id));
            }
            assert forall|id: ComponentId| #[trigger] claims_path(after, source, id) implies claims_path(
                after,
                p.drop_last(),
                id,
            ) by {
                assert(claims_path(before, source, id));
            }
        }
    }
}

proof fn lemma_bytecode_domain(
    claims: Claims,
    p: Seq<Comp>,
    ids: Seq<ComponentId>,
    q: Seq<Comp>,
)
    requires
        q != p,
        q != p.drop_last(),
    ensures
        pip::with_bytecode_of(claims, p, ids).contains_key(q) == claims.contains_key(q),
    decreases ids.len(),
{
    if ids.len() > 0 {
        lemma_bytecode_domain(claims, p, ids.drop_last(), q);
        reveal_with_fuel(pip::with_claims, 3);
        let both = seq![p, p.drop_last()];
        assert(both.drop_last() =~= seq![p]);
        assert(both.drop_last().drop_last() =~= Seq::<Seq<Comp>>::empty());
    }
}

// -------------------------------------------------------- nothing but files

/// Whether each claimed path is a file or a directory that a file is in.
pub open spec fn claims_present(files: FileSet, claims: Claims) -> bool {
    forall|p: Seq<Comp>| #[trigger] claims.contains_key(p) ==> leads_down(files, p)
}

/// Whether a path is that of a file or of a directory that a file is in.
pub open spec fn leads_down(files: FileSet, p: Seq<Comp>) -> bool {
    exists|f: Seq<Comp>| #[trigger] files.contains_key(f) && p.is_prefix_of(f)
}

proof fn lemma_present_claims(
    files: FileSet,
    claims: Claims,
    paths: Seq<Seq<Comp>>,
    id: ComponentId,
)
    requires
        claims_present(files, claims),
        forall|i: int| 0 <= i < paths.len() ==> leads_down(files, #[trigger] paths[i]),
    ensures
        claims_present(files, pip::with_claims(claims, paths, id)),
    decreases paths.len(),
{
    if paths.len() > 0 {
        let front = paths.drop_last();
        assert forall|i: int| 0 <= i < front.len() implies leads_down(
            files,
            #[trigger] front[i],
        ) by {
            assert(front[i] == paths[i]);
        }
        lemma_present_claims(files, claims, front, id);
        assert(leads_down(files, paths[paths.len() - 1]));
    }
}

proof fn lemma_present_entries(
    tree: Tree,
    files: FileSet,
    site: Seq<Comp>,
    id: ComponentId,
    found: Found,
    entries: Seq<Seq<char>>,
)
    requires
        claims_present(files, found.claims),
    ensures
        pip::with_entries(tree, files, site, id, found, entries) matches Ok(after)
            ==> claims_present(files, after.claims),
    decreases entries.len(),
{
    if entries.len() > 0 {
        let front = entries.drop_last();
        lemma_present_entries(tree, files, site, id, found, front);
        if let Ok(before) = pip::with_entries(tree, files, site, id, found, front) {
            let path = pip::entry_path(site, entries.last());
            if let Ok(file) = rootfs::canonical_parent(tree, files, before.cache, path).0 {
                if files.contains_key(file) {
                    let all = seq![file] + pip::dirs_between(site, file);
                    assert forall|i: int| 0 <= i < all.len() implies leads_down(
                        files,
                        #[trigger] all[i],
                    ) by {
                        let k = file.len() - i;
                        assert(all[i] =~= file.take(k));
                        assert(all[i] =~= file.subrange(0, k));
                        assert(all[i].is_prefix_of(file));
                    }
                    lemma_present_claims(files, before.claims, all, id);
                }
            }
        }
    }
}

proof fn lemma_present_files(tree: Tree, files: FileSet, paths: Seq<Seq<Comp>>)
    ensures
        pip::with_files(tree, files, paths) matches Ok(found) ==> claims_present(
            files,
            found.claims,
        ),
    decreases paths.len(),
{
    if paths.len() > 0 {
        lemma_present_files(tree, files, paths.drop_last());
        if let Ok(found) = pip::with_files(tree, files, paths.drop_last()) {
            if is_readable_record(tree, files, paths.last()) {
                let (dist_info, name) = record::record_of(paths.last())->Some_0;
                let (names, id) = pip::with_name(found.names, name);
                lemma_present_entries(
                    tree,
                    files,
                    dist_info.drop_last(),
                    ComponentId(id as usize),
                    Found { names, claims: found.claims, cache: found.cache },
                    pip::recorded(tree, paths.last())->Ok_0,
                );
            }
        }
    }
}

proof fn lemma_present_bytecode_of(
    files: FileSet,
    claims: Claims,
    p: Seq<Comp>,
    ids: Seq<ComponentId>,
)
    requires
        claims_present(files, claims),
        files.contains_key(p),
        p.len() > 0,
    ensures
        claims_present(files, pip::with_bytecode_of(claims, p, ids)),
    decreases ids.len(),
{
    if ids.len() > 0 {
        lemma_present_bytecode_of(files, claims, p, ids.drop_last());
        let both = seq![p, p.drop_last()];
        assert forall|i: int| 0 <= i < both.len() implies leads_down(files, #[trigger] both[i]) by {
            assert(p =~= p.subrange(0, p.len() as int));
            assert(p.drop_last() =~= p.subrange(0, p.len() - 1));
            assert(both[i].is_prefix_of(p));
        }
        lemma_present_claims(
            files,
            pip::with_bytecode_of(claims, p, ids.drop_last()),
            both,
            ids.last(),
        );
    }
}

proof fn lemma_present_bytecode(files: FileSet, claims: Claims, paths: Seq<Seq<Comp>>)
    requires
        claims_present(files, claims),
        forall|i: int| 0 <= i < paths.len() ==> files.contains_key(#[trigger] paths[i]),
    ensures
        claims_present(files, pip::with_all_bytecode(files, claims, paths)),
    decreases paths.len(),
{
    if paths.len() > 0 {
        let front = paths.drop_last();
        assert forall|i: int| 0 <= i < front.len() implies files.contains_key(
            #[trigger] front[i],
        ) by {
            assert(front[i] == paths[i]);
        }
        lemma_present_bytecode(files, claims, front);
        let before = pip::with_all_bytecode(files, claims, front);
        assert(files.contains_key(paths[paths.len() - 1]));
        if let Some(source) = record::source_of(paths.last()) {
            lemma_present_bytecode_of(
                files,
                before,
                paths.last(),
                pip::claimants(before, source),
            );
        }
    }
}

/// Nothing is claimed but files of the root file system and the directories that
/// they are in.
pub proof fn lemma_only_present_claimed(tree: Tree, files: FileSet, paths: Seq<Seq<Comp>>)
    requires
        forall|i: int| 0 <= i < paths.len() ==> files.contains_key(#[trigger] paths[i]),
    ensures
        pip::loaded(tree, files, paths) matches Ok(Some(found)) ==> claims_present(
            files,
            found.claims,
        ),
{
    lemma_present_files(tree, files, paths);
    if let Ok(found) = pip::with_files(tree, files, paths) {
        lemma_present_bytecode(files, found.claims, paths);
    }
}

// ------------------------------------------------- the claims, without the names

/// Whether an entry of a RECORD next to which `site` is gives `q` to its component: it
/// stands for a file of the root file system, and `q` is that file, or a directory above
/// it that is below `site`.
pub open spec fn gives_by_length(
    tree: Tree,
    files: FileSet,
    site: Seq<Comp>,
    entry: Seq<char>,
    q: Seq<Comp>,
) -> bool {
    exists|file: Seq<Comp>, k: int|
        #![trigger files.contains_key(file), file.take(k)]
        {
            &&& files.contains_key(file)
            &&& stands_for(tree, files, pip::entry_path(site, entry), file)
            &&& q == file.take(k)
            &&& k == file.len() || site.is_prefix_of(file) && site.len() < k < file.len()
        }
}

proof fn lemma_dirs_between(site: Seq<Comp>, file: Seq<Comp>, q: Seq<Comp>)
    ensures
        pip::dirs_between(site, file).contains(q) <==> site.is_prefix_of(file) && exists|k: int|
            site.len() < k < file.len() && q == #[trigger] file.take(k),
{
    let dirs = pip::dirs_between(site, file);
    if dirs.contains(q) {
        let i = dirs.index_of(q);
        assert(q == file.take(file.len() - 1 - i));
    }
    if site.is_prefix_of(file) && exists|k: int|
        site.len() < k < file.len() && q == #[trigger] file.take(k) {
        let k = choose|k: int| site.len() < k < file.len() && q == #[trigger] file.take(k);
        assert(dirs[file.len() - 1 - k] == q);
    }
}

/// What an entry gives to its component: its file, and each of the directories above the
/// file down from `site`, which is left out itself.
pub proof fn lemma_entry_gives(
    tree: Tree,
    files: FileSet,
    site: Seq<Comp>,
    entry: Seq<char>,
    q: Seq<Comp>,
)
    ensures
        entry_gives(tree, files, site, entry, q) <==> gives_by_length(
            tree,
            files,
            site,
            entry,
            q,
        ),
{
    let path = pip::entry_path(site, entry);
    if entry_gives(tree, files, site, entry, q) {
        let file = choose|file: Seq<Comp>| #[trigger]
            files.contains_key(file) && stands_for(tree, files, path, file) && (q == file
                || pip::dirs_between(site, file).contains(q));
        lemma_dirs_between(site, file, q);
        if q == file {
            assert(file.take(file.len() as int) =~= file);
        } else {
            let k = choose|k: int| site.len() < k < file.len() && q == #[trigger] file.take(k);
            assert(q == file.take(k));
        }
    }
    if gives_by_length(tree, files, site, entry, q) {
        let (file, k) = choose|file: Seq<Comp>, k: int|
            #![trigger files.contains_key(file), file.take(k)]
            {
                &&& files.contains_key(file)
                &&& stands_for(tree, files, path, file)
                &&& q == file.take(k)
                &&& k == file.len() || site.is_prefix_of(file) && site.len() < k < file.len()
            };
        lemma_dirs_between(site, file, q);
        assert(file.take(file.len() as int) =~= file);
    }
}

/// Every directory above a listed file, down from the one that the distribution is in, is
/// claimed, and so is the file.
pub proof fn lemma_dirs_claimed(
    tree: Tree,
    files: FileSet,
    paths: Seq<Seq<Comp>>,
    r: Seq<Comp>,
    i: int,
    file: Seq<Comp>,
    k: int,
)
    requires
        pip::loaded(tree, files, paths) is Ok,
        paths.contains(r),
        is_readable_record(tree, files, r),
        0 <= i < (pip::recorded(tree, r)->Ok_0).len(),
        stands_for(
            tree,
            files,
            pip::entry_path(
                (record::record_of(r)->Some_0).0.drop_last(),
                (pip::recorded(tree, r)->Ok_0)[i],
            ),
            file,
        ),
        files.contains_key(file),
        k == file.len() || (record::record_of(r)->Some_0).0.drop_last().is_prefix_of(file) && (
        record::record_of(r)->Some_0).0.len() - 1 < k < file.len(),
    ensures
        pip::loaded(tree, files, paths) matches Ok(Some(found)) && {
            let name = (record::record_of(r)->Some_0).1;
            &&& found.names.contains(name)
            &&& claims_path(
                found.claims,
                file.take(k),
                ComponentId(found.names.index_of(name) as usize),
            )
        },
{
    let (dist_info, name) = record::record_of(r)->Some_0;
    let entries = pip::recorded(tree, r)->Ok_0;
    let site = dist_info.drop_last();
    lemma_record_dir(r);
    lemma_none_without_record(tree, files, paths);
    lemma_claimed_if_listed(tree, files, paths);
    let found = pip::loaded(tree, files, paths)->Ok_0->Some_0;
    let q = file.take(k);
    assert(gives_by_length(tree, files, site, entries[i], q));
    lemma_entry_gives(tree, files, site, entries[i], q);
    assert(entries_give(tree, files, site, entries, q));
    assert(record_gives(tree, files, r, q));
    assert(is_listed(tree, files, paths, found.names, q, component_of(found.names, r)));
}

proof fn lemma_record_dir(r: Seq<Comp>)
    requires
        record::record_of(r) is Some,
    ensures
        (record::record_of(r)->Some_0).0.len() == r.len() - 1,
        r.len() >= 2,
{
}

/// An entry of names stands for the path that it is as seen from the directory that the
/// distribution is in; an absolute entry for itself.
pub proof fn lemma_entry_path(site: Seq<Comp>, entry: Seq<char>)
    requires
        path::is_plain(site),
    ensures
        path::components(entry).len() > 0 && (forall|i: int|
            0 <= i < path::components(entry).len() ==> #[trigger] path::components(entry)[i]
                is Normal) ==> pip::entry_path(site, entry) == site + path::components(entry),
        path::is_plain(path::components(entry)) ==> pip::entry_path(site, entry)
            == path::components(entry),
{
    let e = path::components(entry);
    if e.len() > 0 && (forall|i: int| 0 <= i < e.len() ==> #[trigger] e[i] is Normal) {
        assert(e[0] is Normal);
        assert(path::is_plain(site + e));
        path::lemma_plain_fixed(site + e);
    }
    if path::is_plain(e) {
        path::lemma_plain_fixed(e);
    }
}

/// When a RECORD can be read: it is there, seen from the root, of at most 64 MiB, and
/// text. It then lists what its text lists.
pub proof fn lemma_recorded(tree: Tree, p: Seq<Comp>)
    requires
        p.len() > 0,
        p[0] is RootDir,
    ensures
        match pip::recorded(tree, p) {
            Ok(entries) => {
                &&& tree.files.contains_key(p.skip(1))
                &&& tree.files[p.skip(1)].size matches Some(size)
                &&& size <= 67_108_864
                &&& tree.files[p.skip(1)].contents matches Some(text)
                &&& entries == record::record_paths(text)
            },
            Err(_) => tree.files.contains_key(p.skip(1)) ==> match tree.files[p.skip(1)].size {
                Some(size) => size > 67_108_864 || tree.files[p.skip(1)].contents is None,
                None => true,
            },
        },
        pip::recorded(tree, p) == Err::<Seq<Seq<char>>, _>(pip::RecordError::Open)
            <==> !tree.files.contains_key(p.skip(1)),
{
    assert(pip::RECORD_MAX_SIZE == 67_108_864);
}

/// An installed distribution claims its files. In a directory `site` that is reached
/// through no link, with the directory of the distribution
/// `<name>-<version>.dist-info` and a RECORD of text of at most 64 MiB in it that lists an
/// entry of names: where the file of the entry is there and reached through no link, the
/// component under the normal form of the name claims it, and each of the directories
/// above it that are below `site`.
pub proof fn lemma_installed_claimed(
    tree: Tree,
    files: FileSet,
    paths: Seq<Seq<Comp>>,
    site: Seq<Comp>,
    name: Seq<char>,
    version: Seq<char>,
    size: u64,
    text: Seq<char>,
    entry: Seq<char>,
    k: int,
)
    requires
        pip::loaded(tree, files, paths) is Ok,
        canonical_laws::without_links(files, site),
        name.len() > 0,
        !name.contains('-'),
        ({
            let dir = Comp::Normal(name.push('-') + version + ".dist-info"@);
            let r = site.push(dir).push(Comp::Normal("RECORD"@));
            &&& paths.contains(r)
            &&& files[r].file_type == FileType::File
            &&& tree.files.contains_key(r.skip(1))
            &&& tree.files[r.skip(1)].size == Some(size)
            &&& tree.files[r.skip(1)].contents == Some(text)
        }),
        size <= 67_108_864,
        record::record_paths(text).contains(entry),
        path::components(entry).len() > 0,
        forall|i: int|
            0 <= i < path::components(entry).len() ==> #[trigger] path::components(entry)[i]
                is Normal,
        files.contains_key(site + path::components(entry)),
        canonical_laws::without_links(files, (site + path::components(entry)).drop_last()),
        site.len() < k <= site.len() + path::components(entry).len(),
    ensures
        pip::loaded(tree, files, paths) matches Ok(Some(found)) && exists|id: int| {
            &&& 0 <= id < found.names.len()
            &&& #[trigger] found.names[id] == record::normal_name(name)
            &&& claims_path(
                found.claims,
                (site + path::components(entry)).take(k),
                ComponentId(id as usize),
            )
        },
{
    let dir = Comp::Normal(name.push('-') + version + ".dist-info"@);
    let r = site.push(dir).push(Comp::Normal("RECORD"@));
    let e = path::components(entry);
    let file = site + e;
    record_laws::lemma_record_of(site, name, version);
    assert(record::record_of(r) == Some((site.push(dir), record::normal_name(name))));
    assert(site.push(dir).drop_last() =~= site);
    assert(r[0] == site[0]);
    lemma_recorded(tree, r);
    assert(is_readable_record(tree, files, r));
    let entries = pip::recorded(tree, r)->Ok_0;
    let i = entries.index_of(entry);
    lemma_entry_path(site, entry);
    let up = file.drop_last();
    canonical_laws::lemma_leads_to_itself(tree, files, up, 0);
    assert(stands_for(tree, files, file, file));
    assert(site =~= file.subrange(0, site.len() as int));
    lemma_dirs_claimed(tree, files, paths, r, i, file, k);
    let found = pip::loaded(tree, files, paths)->Ok_0->Some_0;
    let id = found.names.index_of(record::normal_name(name));
    assert(found.names[id] == record::normal_name(name));
}

// ------------------------------------------------------- all claims, exactly

/// Whether a file is bytecode that no RECORD lists, and `q` is that file or the directory
/// that it is in, and `id` is a component that lists its source.
pub open spec fn follows_source(
    tree: Tree,
    files: FileSet,
    paths: Seq<Seq<Comp>>,
    names: Seq<Seq<char>>,
    p: Seq<Comp>,
    q: Seq<Comp>,
    id: ComponentId,
) -> bool {
    &&& paths.contains(p)
    &&& files[p].file_type == FileType::File
    &&& forall|other: ComponentId| !#[trigger] is_listed(tree, files, paths, names, p, other)
    &&& record::source_of(p) matches Some(source)
    &&& is_listed(tree, files, paths, names, source, id)
    &&& q == p || q == p.drop_last()
}

/// All the claims there are: those of the RECORDs, and those on unlisted bytecode and the
/// directories that it is in, for the components whose RECORDs list its source.
pub proof fn lemma_all_claims(tree: Tree, files: FileSet, paths: Seq<Seq<Comp>>)
    ensures
        pip::loaded(tree, files, paths) matches Ok(Some(found)) ==> forall|
            q: Seq<Comp>,
            id: ComponentId,
        | #[trigger]
            claims_path(found.claims, q, id) <==> is_listed(
                tree,
                files,
                paths,
                found.names,
                q,
                id,
            ) || exists|p: Seq<Comp>| #[trigger]
                follows_source(tree, files, paths, found.names, p, q, id),
{
    lemma_files(tree, files, paths);
    pip::lemma_files_valid(tree, files, paths);
    if let Ok(Some(loaded)) = pip::loaded(tree, files, paths) {
        let found = pip::with_files(tree, files, paths)->Ok_0;
        assert(loaded.names == found.names);
        assert forall|q: Seq<Comp>, id: ComponentId| #[trigger]
            claims_path(loaded.claims, q, id) <==> is_listed(
                tree,
                files,
                paths,
                found.names,
                q,
                id,
            ) || exists|p: Seq<Comp>| #[trigger]
            follows_source(tree, files, paths, found.names, p, q, id) by {
            lemma_bytecode_adds(files, found.claims, paths, q, id);
            assert forall|p: Seq<Comp>| paths.contains(p) implies (#[trigger] follows_source(
                tree,
                files,
                paths,
                found.names,
                p,
                q,
                id,
            ) <==> adds_bytecode(files, found.claims, p, q, id)) by {
                if found.claims.contains_key(p) {
                    let other = found.claims[p][0];
                    assert(pip::claimants(found.claims, p)[0] == other);
                    assert(claims_path(found.claims, p, other));
                    assert(is_listed(tree, files, paths, found.names, p, other));
                } else {
                    assert forall|other: ComponentId|
                        !#[trigger] is_listed(tree, files, paths, found.names, p, other) by {
                        assert(!claims_path(found.claims, p, other));
                    }
                }
                if let Some(source) = record::source_of(p) {
                    assert(claims_path(found.claims, source, id) <==> is_listed(
                        tree,
                        files,
                        paths,
                        found.names,
                        source,
                        id,
                    ));
                }
            }
            if exists|p: Seq<Comp>| #[trigger]
                paths.contains(p) && adds_bytecode(files, found.claims, p, q, id) {
                let p = choose|p: Seq<Comp>| #[trigger]
                    paths.contains(p) && adds_bytecode(files, found.claims, p, q, id);
                assert(follows_source(tree, files, paths, found.names, p, q, id));
            }
            if exists|p: Seq<Comp>| #[trigger]
                follows_source(tree, files, paths, found.names, p, q, id) {
                let p = choose|p: Seq<Comp>| #[trigger]
                    follows_source(tree, files, paths, found.names, p, q, id);
                assert(paths.contains(p) && adds_bytecode(files, found.claims, p, q, id));
            }
        }
    }
}

/// Whether a file is bytecode without claims, whose source `id` claims, and `q` is that
/// file or the directory that it is in.
spec fn adds_bytecode(
    files: FileSet,
    claims: Claims,
    p: Seq<Comp>,
    q: Seq<Comp>,
    id: ComponentId,
) -> bool {
    &&& files[p].file_type == FileType::File
    &&& !claims.contains_key(p)
    &&& record::source_of(p) matches Some(source)
    &&& claims_path(claims, source, id)
    &&& q == p || q == p.drop_last()
}

proof fn lemma_bytecode_adds(
    files: FileSet,
    claims: Claims,
    paths: Seq<Seq<Comp>>,
    q: Seq<Comp>,
    id: ComponentId,
)
    ensures
        claims_path(pip::with_all_bytecode(files, claims, paths), q, id) <==> claims_path(
            claims,
            q,
            id,
        ) || exists|p: Seq<Comp>| #[trigger]
            paths.contains(p) && adds_bytecode(files, claims, p, q, id),
    decreases paths.len(),
{
    if paths.len() > 0 {
        let front = paths.drop_last();
        let last = paths.last();
        let before = pip::with_all_bytecode(files, claims, front);
        let after = pip::with_all_bytecode(files, claims, paths);
        lemma_bytecode_adds(files, claims, front, q, id);
        assert(front.push(last) =~= paths);
        lists::lemma_push_contains(front, last);
        assert(front.push(last).contains(last));
        if exists|p: Seq<Comp>| #[trigger]
            front.contains(p) && adds_bytecode(files, claims, p, q, id) {
            let p = choose|p: Seq<Comp>| #[trigger]
                front.contains(p) && adds_bytecode(files, claims, p, q, id);
            assert(front.push(last).contains(p));
        }
        if let Some(source) = record::source_of(last) {
            let ids = pip::claimants(before, source);
            lemma_bytecode_of(before, last, ids);
            lemma_source_stays(files, claims, front, last, source, id);
            if !claims.contains_key(last) {
                if files[last].file_type == FileType::File {
                    lemma_bytecode_in(files, claims, front, last, source);
                    if front.contains(last) {
                        // it was looked at before
                        assert(claims_path(before, last, id) <==> claims_path(before, source, id));
                        if claims_path(before, source, id) {
                            assert(claims_path(before, last.drop_last(), id));
                            assert(adds_bytecode(files, claims, last, last, id));
                        }
                    }
                }
            } else {
                lemma_key_stays(files, claims, front, last);
            }
        }
        assert(claims_path(after, q, id) <==> claims_path(before, q, id) || adds_bytecode(
            files,
            claims,
            last,
            q,
            id,
        ));
    } else {
        assert(forall|p: Seq<Comp>| !paths.contains(p));
    }
}

proof fn lemma_source_stays(
    files: FileSet,
    claims: Claims,
    paths: Seq<Seq<Comp>>,
    p: Seq<Comp>,
    source: Seq<Comp>,
    id: ComponentId,
)
    requires
        record::source_of(p) == Some(source),
    ensures
        claims_path(pip::with_all_bytecode(files, claims, paths), source, id) <==> claims_path(
            claims,
            source,
            id,
        ),
    decreases paths.len(),
{
    if paths.len() > 0 {
        let front = paths.drop_last();
        let last = paths.last();
        let before = pip::with_all_bytecode(files, claims, front);
        lemma_source_stays(files, claims, front, p, source, id);
        if let Some(other) = record::source_of(last) {
            lemma_bytecode_of(before, last, pip::claimants(before, other));
            lemma_source_apart(p, last);
        }
    }
}

proof fn lemma_key_stays(
    files: FileSet,
    claims: Claims,
    paths: Seq<Seq<Comp>>,
    p: Seq<Comp>,
)
    requires
        claims.contains_key(p),
    ensures
        pip::with_all_bytecode(files, claims, paths).contains_key(p),
    decreases paths.len(),
{
    if paths.len() > 0 {
        let front = paths.drop_last();
        let last = paths.last();
        let before = pip::with_all_bytecode(files, claims, front);
        lemma_key_stays(files, claims, front, p);
        if let Some(other) = record::source_of(last) {
            lemma_key_stays_one(before, last, pip::claimants(before, other), p);
        }
    }
}

proof fn lemma_key_stays_one(
    claims: Claims,
    p: Seq<Comp>,
    ids: Seq<ComponentId>,
    q: Seq<Comp>,
)
    requires
        claims.contains_key(q),
    ensures
        pip::with_bytecode_of(claims, p, ids).contains_key(q),
    decreases ids.len(),
{
    if ids.len() > 0 {
        lemma_key_stays_one(claims, p, ids.drop_last(), q);
        reveal_with_fuel(pip::with_claims, 3);
    }
}

/// What the repo of what was found answers: the components under their names, with the
/// given mtime clamp and an update every 30 days, and the claims that were found.
pub proof fn lemma_repo_answers(
    repo: pip::PipRepo,
    found: Found,
    default_mtime_clamp: u64,
    id: ComponentId,
    p: Seq<Comp>,
    info: FileFacts,
)
    requires
        repo.is_of(found, default_mtime_clamp),
    ensures
        repo.has_component(id) <==> id.0 < found.names.len(),
        repo.facts(id).name == found.names[id.0 as int],
        repo.facts(id).mtime_clamp == default_mtime_clamp,
        repo.facts(id).stability == (Stability::Interval { days: 30 }),
        repo.strong_claims(p, info) == if found.claims.contains_key(p) {
            found.claims[p]
        } else {
            Seq::empty()
        },
{
}

// ------------------------------------------------------- when a load succeeds

/// Whether a path starts from the root, and the directory that it is in leads somewhere
/// through at most 40 links one after another.
pub open spec fn is_resolvable(tree: Tree, files: FileSet, p: Seq<Comp>) -> bool {
    &&& path::is_absolute(p)
    &&& p.len() <= 1 || canonical_laws::resolved(tree, files, p.drop_last(), 40) is Some
}

/// Whether a path starts from the root, and stands for a path.
pub open spec fn stands_for_some(tree: Tree, files: FileSet, p: Seq<Comp>) -> bool {
    path::is_absolute(p) && exists|file: Seq<Comp>| #[trigger] stands_for(tree, files, p, file)
}

proof fn lemma_entries_succeed(
    tree: Tree,
    files: FileSet,
    site: Seq<Comp>,
    id: ComponentId,
    found: Found,
    entries: Seq<Seq<char>>,
)
    requires
        canonical_laws::cache_true(tree, files, found.cache),
    ensures
        pip::with_entries(tree, files, site, id, found, entries) is Ok ==> forall|i: int|
            0 <= i < entries.len() ==> stands_for_some(
                tree,
                files,
                pip::entry_path(site, #[trigger] entries[i]),
            ),
        (forall|i: int|
            0 <= i < entries.len() ==> is_resolvable(
                tree,
                files,
                pip::entry_path(site, #[trigger] entries[i]),
            )) ==> pip::with_entries(tree, files, site, id, found, entries) is Ok,
    decreases entries.len(),
{
    if entries.len() > 0 {
        let front = entries.drop_last();
        let last = entries.last();
        let path = pip::entry_path(site, last);
        lemma_entries_succeed(tree, files, site, id, found, front);
        lemma_entries(tree, files, site, id, found, front);
        assert(entries[entries.len() - 1] == last);
        if forall|i: int|
            0 <= i < entries.len() ==> is_resolvable(
                tree,
                files,
                pip::entry_path(site, #[trigger] entries[i]),
            ) {
            assert forall|i: int| 0 <= i < front.len() implies is_resolvable(
                tree,
                files,
                pip::entry_path(site, #[trigger] front[i]),
            ) by {
                assert(front[i] == entries[i]);
            }
            assert(is_resolvable(tree, files, path));
        }
        if let Ok(before) = pip::with_entries(tree, files, site, id, found, front) {
            if path.len() > 1 {
                let up = path.drop_last();
                canonical_laws::lemma_cache_transparent(tree, files, before.cache, up, 0);
            }
            if pip::with_entry(tree, files, site, id, before, last) is Ok {
                let c = rootfs::canonical_parent(tree, files, before.cache, path).0->Ok_0;
                if path.len() > 1 {
                    let dir =
                        rootfs::canonical_dir(tree, files, before.cache, path.drop_last(), 0).0->Ok_0;
                    assert(c.drop_last() =~= dir);
                }
                assert(stands_for(tree, files, path, c));
            }
            assert forall|i: int|
                0 <= i < entries.len() && pip::with_entries(tree, files, site, id, found, entries)
                    is Ok implies stands_for_some(
                tree,
                files,
                pip::entry_path(site, #[trigger] entries[i]),
            ) by {
                if i < front.len() {
                    assert(front[i] == entries[i]);
                }
            }
        }
    }
}

/// Whether all the entries of a readable RECORD can be resolved.
pub open spec fn all_resolvable(tree: Tree, files: FileSet, r: Seq<Comp>) -> bool {
    is_readable_record(tree, files, r) ==> forall|i: int|
        0 <= i < (pip::recorded(tree, r)->Ok_0).len() ==> is_resolvable(
            tree,
            files,
            pip::entry_path(
                (record::record_of(r)->Some_0).0.drop_last(),
                #[trigger] (pip::recorded(tree, r)->Ok_0)[i],
            ),
        )
}

/// Whether all the entries of a readable RECORD stand for paths.
pub open spec fn all_stand(tree: Tree, files: FileSet, r: Seq<Comp>) -> bool {
    is_readable_record(tree, files, r) ==> forall|i: int|
        0 <= i < (pip::recorded(tree, r)->Ok_0).len() ==> stands_for_some(
            tree,
            files,
            pip::entry_path(
                (record::record_of(r)->Some_0).0.drop_last(),
                #[trigger] (pip::recorded(tree, r)->Ok_0)[i],
            ),
        )
}

/// A load succeeds where all the entries of readable RECORDs start from the root and lead
/// somewhere through few enough links, and only where they stand for paths: an entry that
/// does not fails the load and is not passed over.
pub proof fn lemma_when_loaded(tree: Tree, files: FileSet, paths: Seq<Seq<Comp>>)
    ensures
        pip::loaded(tree, files, paths) is Ok ==> forall|r: Seq<Comp>| #[trigger]
            paths.contains(r) ==> all_stand(tree, files, r),
        (forall|r: Seq<Comp>| #[trigger] paths.contains(r) ==> all_resolvable(tree, files, r))
            ==> pip::loaded(tree, files, paths) is Ok,
{
    lemma_files_succeed(tree, files, paths);
}

proof fn lemma_files_succeed(tree: Tree, files: FileSet, paths: Seq<Seq<Comp>>)
    ensures
        pip::with_files(tree, files, paths) is Ok ==> forall|r: Seq<Comp>| #[trigger]
            paths.contains(r) ==> all_stand(tree, files, r),
        (forall|r: Seq<Comp>| #[trigger] paths.contains(r) ==> all_resolvable(tree, files, r))
            ==> pip::with_files(tree, files, paths) is Ok,
    decreases paths.len(),
{
    if paths.len() > 0 {
        let front = paths.drop_last();
        let p = paths.last();
        lemma_files_succeed(tree, files, front);
        lemma_files(tree, files, front);
        assert(front.push(p) =~= paths);
        lists::lemma_push_contains(front, p);
        assert(front.push(p).contains(p));
        if forall|r: Seq<Comp>| #[trigger] paths.contains(r) ==> all_resolvable(tree, files, r) {
            assert forall|r: Seq<Comp>| #[trigger] front.contains(r) implies all_resolvable(
                tree,
                files,
                r,
            ) by {
                assert(front.push(p).contains(r));
            }
            assert(all_resolvable(tree, files, p));
        }
        if let Ok(found) = pip::with_files(tree, files, front) {
            if is_readable_record(tree, files, p) {
                let (dist_info, name) = record::record_of(p)->Some_0;
                let (names, id) = pip::with_name(found.names, name);
                lemma_entries_succeed(
                    tree,
                    files,
                    dist_info.drop_last(),
                    ComponentId(id as usize),
                    Found { names, claims: found.claims, cache: found.cache },
                    pip::recorded(tree, p)->Ok_0,
                );
            }
        }
        assert forall|r: Seq<Comp>| #[trigger]
            paths.contains(r) && pip::with_files(tree, files, paths) is Ok implies all_stand(
            tree,
            files,
            r,
        ) by {
            if r != p {
                assert(front.contains(r));
            }
        }
    } else {
        assert(forall|r: Seq<Comp>| !paths.contains(r));
    }
}

/// An entry that begins with `..` is taken from the directory above.
pub proof fn lemma_entry_up(site: Seq<Comp>, name: Seq<char>, entry: Seq<char>, rest: Seq<char>)
    requires
        path::is_absolute(site),
        path::components(entry) == seq![Comp::ParentDir] + path::components(rest),
        path::components(rest).len() > 0 ==> path::components(rest)[0] is ParentDir
            || path::components(rest)[0] is Normal,
    ensures
        pip::entry_path(site.push(Comp::Normal(name)), entry) == pip::entry_path(site, rest),
{
    let e = path::components(entry);
    let b = path::components(rest);
    let dir = site.push(Comp::Normal(name));
    assert(e[0] is ParentDir);
    assert(path::joined(dir, e) =~= dir.push(Comp::ParentDir) + b);
    assert(path::joined(site, b) =~= site + b);
    path::lemma_parent_takes_back(site, name, b);
}

/// Whether `path` is what the entry at place `i` of a readable RECORD stands for.
pub open spec fn is_entry_of(
    tree: Tree,
    files: FileSet,
    r: Seq<Comp>,
    i: int,
    path: Seq<Comp>,
) -> bool {
    &&& is_readable_record(tree, files, r)
    &&& 0 <= i < (pip::recorded(tree, r)->Ok_0).len()
    &&& path == pip::entry_path(
        (record::record_of(r)->Some_0).0.drop_last(),
        (pip::recorded(tree, r)->Ok_0)[i],
    )
}

proof fn lemma_entries_fail(
    tree: Tree,
    files: FileSet,
    site: Seq<Comp>,
    id: ComponentId,
    found: Found,
    entries: Seq<Seq<char>>,
) -> (i: int)
    requires
        pip::with_entries(tree, files, site, id, found, entries) is Err,
    ensures
        0 <= i < entries.len(),
        match pip::with_entries(tree, files, site, id, found, entries)->Err_0 {
            LoadFailure::NotAbsolute { path } => path == pip::entry_path(site, entries[i])
                && !path::is_absolute(path),
            LoadFailure::Canonicalize { path, .. } => path == pip::entry_path(site, entries[i])
                && path::is_absolute(path),
        },
    decreases entries.len(),
{
    let front = entries.drop_last();
    if pip::with_entries(tree, files, site, id, found, front) is Err {
        lemma_entries_fail(tree, files, site, id, found, front)
    } else {
        entries.len() - 1
    }
}

/// What a failed load names: the path that an entry of a readable RECORD stands for, which
/// does not start from the root, or does and could not be resolved.
pub proof fn lemma_load_failure(tree: Tree, files: FileSet, paths: Seq<Seq<Comp>>)
    requires
        pip::loaded(tree, files, paths) is Err,
    ensures
        match pip::loaded(tree, files, paths)->Err_0 {
            LoadFailure::NotAbsolute { path } => !path::is_absolute(path) && exists|
                r: Seq<Comp>,
                i: int,
            | paths.contains(r) && #[trigger] is_entry_of(tree, files, r, i, path),
            LoadFailure::Canonicalize { path, .. } => path::is_absolute(path) && exists|
                r: Seq<Comp>,
                i: int,
            | paths.contains(r) && #[trigger] is_entry_of(tree, files, r, i, path),
        },
{
    lemma_files_fail(tree, files, paths);
}

proof fn lemma_files_fail(tree: Tree, files: FileSet, paths: Seq<Seq<Comp>>)
    requires
        pip::with_files(tree, files, paths) is Err,
    ensures
        match pip::with_files(tree, files, paths)->Err_0 {
            LoadFailure::NotAbsolute { path } => !path::is_absolute(path) && exists|
                r: Seq<Comp>,
                i: int,
            | paths.contains(r) && #[trigger] is_entry_of(tree, files, r, i, path),
            LoadFailure::Canonicalize { path, .. } => path::is_absolute(path) && exists|
                r: Seq<Comp>,
                i: int,
            | paths.contains(r) && #[trigger] is_entry_of(tree, files, r, i, path),
        },
    decreases paths.len(),
{
    let front = paths.drop_last();
    let p = paths.last();
    assert(front.push(p) =~= paths);
    lists::lemma_push_contains(front, p);
    assert(front.push(p).contains(p));
    match pip::with_files(tree, files, front) {
        Err(_) => {
            lemma_files_fail(tree, files, front);
            let path = match pip::with_files(tree, files, front)->Err_0 {
                LoadFailure::NotAbsolute { path } => path,
                LoadFailure::Canonicalize { path, .. } => path,
            };
            let (r, i) = choose|r: Seq<Comp>, i: int|
                front.contains(r) && #[trigger] is_entry_of(tree, files, r, i, path);
            assert(front.push(p).contains(r) && is_entry_of(tree, files, r, i, path));
        },
        Ok(found) => {
            let (dist_info, name) = record::record_of(p)->Some_0;
            let (names, id) = pip::with_name(found.names, name);
            let entries = pip::recorded(tree, p)->Ok_0;
            let i = lemma_entries_fail(
                tree,
                files,
                dist_info.drop_last(),
                ComponentId(id as usize),
                Found { names, claims: found.claims, cache: found.cache },
                entries,
            );
            assert(is_entry_of(
                tree,
                files,
                p,
                i,
                pip::entry_path(dist_info.drop_last(), entries[i]),
            ));
        },
    }
}

} // verus!
