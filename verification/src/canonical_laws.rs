//! What holds of canonicalization as a whole.
use vstd::prelude::*;

use crate::file_info::{FileFacts, FileType};
use crate::path;
use crate::path::Comp;
use crate::rootfs;
use crate::rootfs::{Cache, CanonicalizeErrorKind, Link, Tree, MAX_SYMLINK_DEPTH};

verus! {

/// Whether no component of `p` below the root is a symbolic link.
pub open spec fn settled(files: Map<Seq<Comp>, FileFacts>, p: Seq<Comp>) -> bool {
    &&& path::is_plain(p)
    &&& forall|k: int| 2 <= k <= p.len() ==> !rootfs::is_symlink(files, #[trigger] p.take(k))
}

/// Whether the directories seen so far lead to settled paths, the settled ones to
/// themselves.
pub open spec fn cache_settled(files: Map<Seq<Comp>, FileFacts>, cache: Cache) -> bool {
    forall|p: Seq<Comp>| #[trigger]
        cache.contains_key(p) ==> settled(files, cache[p]) && (settled(files, p) ==> cache[p] == p)
}

proof fn lemma_settled_push(files: Map<Seq<Comp>, FileFacts>, dir: Seq<Comp>, last: Comp)
    requires
        settled(files, dir),
        last is Normal,
        !rootfs::is_symlink(files, dir.push(last)),
    ensures
        settled(files, dir.push(last)),
{
    let here = dir.push(last);
    assert forall|k: int| 2 <= k <= here.len() implies !rootfs::is_symlink(
        files,
        #[trigger] here.take(k),
    ) by {
        if k <= dir.len() {
            assert(here.take(k) =~= dir.take(k));
        } else {
            assert(here.take(k) =~= here);
        }
    }
}

proof fn lemma_settled_parent(files: Map<Seq<Comp>, FileFacts>, p: Seq<Comp>)
    requires
        settled(files, p),
        p.len() > 1,
    ensures
        settled(files, p.drop_last()),
        !rootfs::is_symlink(files, p),
        p.drop_last().push(p.last()) == p,
{
    let dir = p.drop_last();
    assert(p.take(p.len() as int) =~= p);
    assert(dir.push(p.last()) =~= p);
    assert forall|k: int| 2 <= k <= dir.len() implies !rootfs::is_symlink(
        files,
        #[trigger] dir.take(k),
    ) by {
        assert(dir.take(k) =~= p.take(k));
    }
}

/// A canonical path goes through no symbolic link, and a path that goes through
/// none is its own canonical path.
pub proof fn lemma_canonical_settled(
    tree: Tree,
    files: Map<Seq<Comp>, FileFacts>,
    cache: Cache,
    path: Seq<Comp>,
    depth: nat,
)
    requires
        path::is_plain(path),
        cache_settled(files, cache),
    ensures
        cache_settled(files, rootfs::canonical_dir(tree, files, cache, path, depth).1),
        match rootfs::canonical_dir(tree, files, cache, path, depth).0 {
            Ok(p) => settled(files, p),
            Err(_) => true,
        },
        depth <= MAX_SYMLINK_DEPTH && settled(files, path) ==> rootfs::canonical_dir(
            tree,
            files,
            cache,
            path,
            depth,
        ).0 == Ok::<Seq<Comp>, rootfs::CanonicalizeFailure>(path),
    decreases MAX_SYMLINK_DEPTH + 1 - depth, path.len(),
{
    if depth <= MAX_SYMLINK_DEPTH && !cache.contains_key(path) && path.len() > 1 {
        assert(path.last() == path[path.len() - 1]);
        assert forall|i: int| 1 <= i < path.drop_last().len() implies
            #[trigger] path.drop_last()[i] is Normal by {
            assert(path.drop_last()[i] == path[i]);
        }
        lemma_canonical_settled(tree, files, cache, path.drop_last(), depth);
        if settled(files, path) {
            lemma_settled_parent(files, path);
            assert(path[path.len() - 1] is Normal);
        }
        let (up, seen) = rootfs::canonical_dir(tree, files, cache, path.drop_last(), depth);
        if let Ok(dir) = up {
            let here = dir.push(path.last());
            if !rootfs::is_symlink(files, here) {
                lemma_settled_push(files, dir, path.last());
            } else if tree.links.contains_key(here.skip(1)) {
                if let Link::Target(target) = tree.links[here.skip(1)] {
                    rootfs::lemma_destination_plain(dir, target);
                    lemma_canonical_settled(
                        tree,
                        files,
                        seen,
                        rootfs::link_destination(dir, target),
                        depth + 1,
                    );
                }
            }
        }
    } else if path.len() == 1 {
        assert(settled(files, path));
    }
}

/// A directory that was canonicalized once is answered the same way from then on,
/// and nothing more is looked up for it.
pub proof fn lemma_canonical_remembered(
    tree: Tree,
    files: Map<Seq<Comp>, FileFacts>,
    cache: Cache,
    path: Seq<Comp>,
    depth: nat,
    later: nat,
)
    requires
        rootfs::canonical_dir(tree, files, cache, path, depth).0 is Ok,
        later <= MAX_SYMLINK_DEPTH,
    ensures
        ({
            let (answer, seen) = rootfs::canonical_dir(tree, files, cache, path, depth);
            rootfs::canonical_dir(tree, files, seen, path, later) == (answer, seen)
        }),
{
}

/// The directory that `path` leads to when at most `links` links may be followed
/// one after another, without a memory of what was seen before.
pub open spec fn resolved(
    tree: Tree,
    files: Map<Seq<Comp>, FileFacts>,
    path: Seq<Comp>,
    links: nat,
) -> Option<Seq<Comp>>
    decreases links, path.len(),
{
    if path.len() <= 1 {
        Some(path)
    } else {
        match resolved(tree, files, path.drop_last(), links) {
            None => None,
            Some(dir) => {
                let here = dir.push(path.last());
                if !rootfs::is_symlink(files, here) {
                    Some(here)
                } else if links == 0 || !tree.links.contains_key(here.skip(1)) {
                    None
                } else {
                    match tree.links[here.skip(1)] {
                        Link::NotUtf8 => None,
                        Link::Target(target) => resolved(
                            tree,
                            files,
                            rootfs::link_destination(dir, target),
                            (links - 1) as nat,
                        ),
                    }
                }
            },
        }
    }
}

/// Leave to follow more links changes no answer that there is already.
pub proof fn lemma_resolved_monotone(
    tree: Tree,
    files: Map<Seq<Comp>, FileFacts>,
    path: Seq<Comp>,
    few: nat,
    many: nat,
)
    requires
        few <= many,
        resolved(tree, files, path, few) is Some,
    ensures
        resolved(tree, files, path, many) == resolved(tree, files, path, few),
    decreases few, path.len(),
{
    if path.len() > 1 {
        lemma_resolved_monotone(tree, files, path.drop_last(), few, many);
        if let Some(dir) = resolved(tree, files, path.drop_last(), few) {
            let here = dir.push(path.last());
            if rootfs::is_symlink(files, here) {
                if let Link::Target(target) = tree.links[here.skip(1)] {
                    lemma_resolved_monotone(
                        tree,
                        files,
                        rootfs::link_destination(dir, target),
                        (few - 1) as nat,
                        (many - 1) as nat,
                    );
                }
            }
        }
    }
}

/// Whether `path` leads to `end` through some number of links.
pub open spec fn leads_to(
    tree: Tree,
    files: Map<Seq<Comp>, FileFacts>,
    path: Seq<Comp>,
    end: Seq<Comp>,
) -> bool {
    exists|links: nat| #[trigger] resolved(tree, files, path, links) == Some(end)
}

/// Whether each of the directories seen so far leads where the cache says.
pub open spec fn cache_true(
    tree: Tree,
    files: Map<Seq<Comp>, FileFacts>,
    cache: Cache,
) -> bool {
    forall|p: Seq<Comp>| #[trigger] cache.contains_key(p) ==> leads_to(tree, files, p, cache[p])
}

/// A path leads to one directory only.
pub proof fn lemma_leads_to_one(
    tree: Tree,
    files: Map<Seq<Comp>, FileFacts>,
    path: Seq<Comp>,
    a: Seq<Comp>,
    b: Seq<Comp>,
)
    requires
        leads_to(tree, files, path, a),
        leads_to(tree, files, path, b),
    ensures
        a == b,
{
    let m = choose|links: nat| #[trigger] resolved(tree, files, path, links) == Some(a);
    let n = choose|links: nat| #[trigger] resolved(tree, files, path, links) == Some(b);
    if m <= n {
        lemma_resolved_monotone(tree, files, path, m, n);
    } else {
        lemma_resolved_monotone(tree, files, path, n, m);
    }
}

/// The memory of directories seen before changes no answer: what canonicalization
/// gives is where the path leads without that memory, and a path that leads
/// somewhere through no more links than are left is answered.
pub proof fn lemma_cache_transparent(
    tree: Tree,
    files: Map<Seq<Comp>, FileFacts>,
    cache: Cache,
    path: Seq<Comp>,
    depth: nat,
)
    requires
        cache_true(tree, files, cache),
    ensures
        cache_true(tree, files, rootfs::canonical_dir(tree, files, cache, path, depth).1),
        match rootfs::canonical_dir(tree, files, cache, path, depth).0 {
            Ok(p) => leads_to(tree, files, path, p),
            Err(_) => true,
        },
        depth <= MAX_SYMLINK_DEPTH ==> match resolved(
            tree,
            files,
            path,
            (MAX_SYMLINK_DEPTH - depth) as nat,
        ) {
            Some(p) => rootfs::canonical_dir(tree, files, cache, path, depth).0 == Ok::<
                Seq<Comp>,
                rootfs::CanonicalizeFailure,
            >(p),
            None => true,
        },
    decreases MAX_SYMLINK_DEPTH + 1 - depth, path.len(),
{
    if depth <= MAX_SYMLINK_DEPTH {
        let left = (MAX_SYMLINK_DEPTH - depth) as nat;
        if cache.contains_key(path) {
            if let Some(p) = resolved(tree, files, path, left) {
                assert(leads_to(tree, files, path, p));
                lemma_leads_to_one(tree, files, path, p, cache[path]);
            }
        } else if path.len() <= 1 {
            assert(resolved(tree, files, path, 0) == Some(path));
        } else {
            lemma_cache_transparent(tree, files, cache, path.drop_last(), depth);
            let (up, seen) = rootfs::canonical_dir(tree, files, cache, path.drop_last(), depth);
            if let Ok(dir) = up {
                let m = choose|links: nat| #[trigger]
                    resolved(tree, files, path.drop_last(), links) == Some(dir);
                let here = dir.push(path.last());
                if let Some(other) = resolved(tree, files, path.drop_last(), left) {
                    assert(leads_to(tree, files, path.drop_last(), other));
                    lemma_leads_to_one(tree, files, path.drop_last(), other, dir);
                }
                if !rootfs::is_symlink(files, here) {
                    assert(resolved(tree, files, path, m) == Some(here));
                } else if tree.links.contains_key(here.skip(1)) {
                    if let Link::Target(target) = tree.links[here.skip(1)] {
                        let to = rootfs::link_destination(dir, target);
                        lemma_cache_transparent(tree, files, seen, to, depth + 1);
                        if let Ok(end) = rootfs::canonical_dir(tree, files, seen, to, depth + 1).0 {
                            let n = choose|links: nat| #[trigger]
                                resolved(tree, files, to, links) == Some(end);
                            let all = if m <= n + 1 {
                                n + 1
                            } else {
                                m
                            };
                            lemma_resolved_monotone(tree, files, path.drop_last(), m, all);
                            lemma_resolved_monotone(tree, files, to, n, (all - 1) as nat);
                            assert(resolved(tree, files, path, all) == Some(end));
                        }
                    }
                }
            }
        }
    }
}

/// Whether the directories that `p` is resolved through have been seen: the one that it
/// is in, and where it is a link, the one that the link leads to.
pub open spec fn seen_on_the_way(
    tree: Tree,
    files: Map<Seq<Comp>, FileFacts>,
    cache: Cache,
    p: Seq<Comp>,
) -> bool {
    let up = p.drop_last();
    let dir = if up.len() <= 1 {
        up
    } else {
        cache[up]
    };
    let here = dir.push(p.last());
    &&& p.len() > 1
    &&& is_seen(cache, up)
    &&& rootfs::is_symlink(files, here) ==> {
        &&& tree.links.contains_key(here.skip(1))
        &&& tree.links[here.skip(1)] matches Link::Target(target)
        &&& is_seen(cache, rootfs::link_destination(dir, target))
    }
}

/// Whether a directory has been seen. The root always has.
pub open spec fn is_seen(cache: Cache, p: Seq<Comp>) -> bool {
    p.len() <= 1 || cache.contains_key(p)
}

/// Whether a cache is one that calls have filled: each directory leads where it says,
/// and the directories on the way have been seen too.
pub open spec fn cache_filled(
    tree: Tree,
    files: Map<Seq<Comp>, FileFacts>,
    cache: Cache,
) -> bool {
    &&& cache_true(tree, files, cache)
    &&& forall|p: Seq<Comp>| #[trigger]
        cache.contains_key(p) ==> seen_on_the_way(tree, files, cache, p)
}

/// Whether all the entries of a cache stay in another.
pub open spec fn entries_stay(before: Cache, after: Cache) -> bool {
    forall|p: Seq<Comp>| #[trigger]
        before.contains_key(p) ==> after.contains_key(p) && after[p] == before[p]
}

proof fn lemma_insert_filled(
    tree: Tree,
    files: Map<Seq<Comp>, FileFacts>,
    cache: Cache,
    path: Seq<Comp>,
    end: Seq<Comp>,
)
    requires
        cache_filled(tree, files, cache),
        leads_to(tree, files, path, end),
        seen_on_the_way(tree, files, cache, path),
    ensures
        cache_filled(tree, files, cache.insert(path, end)),
        entries_stay(cache, cache.insert(path, end)),
{
    let after = cache.insert(path, end);
    if cache.contains_key(path) {
        lemma_leads_to_one(tree, files, path, end, cache[path]);
    }
    assert forall|p: Seq<Comp>| #[trigger] after.contains_key(p) implies seen_on_the_way(
        tree,
        files,
        after,
        p,
    ) by {
        assert(p == path || cache.contains_key(p));
        assert(seen_on_the_way(tree, files, cache, p));
        if p.drop_last() == path {
            assert(cache.contains_key(path));
        }
    }
}

/// An empty cache is one that calls have filled, and calls keep a cache so. No entry is
/// changed or lost, and a directory that is answered has been seen.
pub proof fn lemma_cache_filled(
    tree: Tree,
    files: Map<Seq<Comp>, FileFacts>,
    cache: Cache,
    path: Seq<Comp>,
    depth: nat,
)
    requires
        cache_filled(tree, files, cache),
    ensures
        cache_filled(tree, files, Map::empty()),
        cache_filled(tree, files, rootfs::canonical_dir(tree, files, cache, path, depth).1),
        entries_stay(cache, rootfs::canonical_dir(tree, files, cache, path, depth).1),
        match rootfs::canonical_dir(tree, files, cache, path, depth) {
            (Ok(end), seen) => if path.len() <= 1 {
                end == path
            } else {
                seen.contains_key(path) && seen[path] == end
            },
            _ => true,
        },
    decreases MAX_SYMLINK_DEPTH + 1 - depth, path.len(),
{
    if depth <= MAX_SYMLINK_DEPTH && !cache.contains_key(path) && path.len() > 1 {
        let up = path.drop_last();
        lemma_cache_filled(tree, files, cache, up, depth);
        lemma_cache_transparent(tree, files, cache, path, depth);
        let (above, seen) = rootfs::canonical_dir(tree, files, cache, up, depth);
        if let Ok(dir) = above {
            let here = dir.push(path.last());
            if !rootfs::is_symlink(files, here) {
                lemma_insert_filled(tree, files, seen, path, here);
            } else if tree.links.contains_key(here.skip(1)) {
                if let Link::Target(target) = tree.links[here.skip(1)] {
                    let to = rootfs::link_destination(dir, target);
                    lemma_cache_filled(tree, files, seen, to, depth + 1);
                    let (end, seen) = rootfs::canonical_dir(tree, files, seen, to, depth + 1);
                    if let Ok(end) = end {
                        lemma_insert_filled(tree, files, seen, path, end);
                    }
                }
            }
        }
    }
}

/// What a call adds to a smaller cache is in a larger one that has seen the directory.
proof fn lemma_adds_nothing(
    tree: Tree,
    files: Map<Seq<Comp>, FileFacts>,
    small: Cache,
    large: Cache,
    path: Seq<Comp>,
    depth: nat,
)
    requires
        cache_true(tree, files, small),
        cache_filled(tree, files, large),
        entries_stay(small, large),
        is_seen(large, path),
        rootfs::canonical_dir(tree, files, small, path, depth).0 is Ok,
    ensures
        entries_stay(rootfs::canonical_dir(tree, files, small, path, depth).1, large),
    decreases MAX_SYMLINK_DEPTH + 1 - depth, path.len(),
{
    if !small.contains_key(path) && path.len() > 1 {
        let up = path.drop_last();
        assert(seen_on_the_way(tree, files, large, path));
        lemma_adds_nothing(tree, files, small, large, up, depth);
        lemma_cache_transparent(tree, files, small, up, depth);
        lemma_cache_transparent(tree, files, small, path, depth);
        let (above, seen) = rootfs::canonical_dir(tree, files, small, up, depth);
        let dir = above->Ok_0;
        if up.len() <= 1 {
            assert(resolved(tree, files, up, 0) == Some(up));
            assert(leads_to(tree, files, up, up));
            lemma_leads_to_one(tree, files, up, dir, up);
        } else {
            lemma_leads_to_one(tree, files, up, dir, large[up]);
        }
        let here = dir.push(path.last());
        let end = rootfs::canonical_dir(tree, files, small, path, depth).0->Ok_0;
        lemma_leads_to_one(tree, files, path, end, large[path]);
        if rootfs::is_symlink(files, here) {
            if let Link::Target(target) = tree.links[here.skip(1)] {
                let to = rootfs::link_destination(dir, target);
                lemma_adds_nothing(tree, files, seen, large, to, depth + 1);
            }
        }
    }
}

/// A cache that knows more answers all that one answers that knows less, and alike.
pub proof fn lemma_larger_cache(
    tree: Tree,
    files: Map<Seq<Comp>, FileFacts>,
    small: Cache,
    large: Cache,
    path: Seq<Comp>,
    depth: nat,
)
    requires
        cache_true(tree, files, small),
        cache_filled(tree, files, large),
        entries_stay(small, large),
        rootfs::canonical_dir(tree, files, small, path, depth).0 is Ok,
    ensures
        rootfs::canonical_dir(tree, files, large, path, depth).0 == rootfs::canonical_dir(
            tree,
            files,
            small,
            path,
            depth,
        ).0,
        entries_stay(
            rootfs::canonical_dir(tree, files, small, path, depth).1,
            rootfs::canonical_dir(tree, files, large, path, depth).1,
        ),
    decreases MAX_SYMLINK_DEPTH + 1 - depth, path.len(),
{
    if large.contains_key(path) {
        let end = rootfs::canonical_dir(tree, files, small, path, depth).0->Ok_0;
        lemma_cache_transparent(tree, files, small, path, depth);
        lemma_leads_to_one(tree, files, path, end, large[path]);
        lemma_adds_nothing(tree, files, small, large, path, depth);
    } else if path.len() > 1 {
        let up = path.drop_last();
        lemma_larger_cache(tree, files, small, large, up, depth);
        lemma_cache_transparent(tree, files, small, up, depth);
        lemma_cache_filled(tree, files, large, up, depth);
        let (above, less) = rootfs::canonical_dir(tree, files, small, up, depth);
        let more = rootfs::canonical_dir(tree, files, large, up, depth).1;
        let dir = above->Ok_0;
        let here = dir.push(path.last());
        if rootfs::is_symlink(files, here) {
            if let Link::Target(target) = tree.links[here.skip(1)] {
                let to = rootfs::link_destination(dir, target);
                lemma_larger_cache(tree, files, less, more, to, depth + 1);
            }
        }
    }
}

/// What is answered without a memory is answered alike by every cache that calls have
/// filled.
pub proof fn lemma_filled_cache_answers(
    tree: Tree,
    files: Map<Seq<Comp>, FileFacts>,
    cache: Cache,
    path: Seq<Comp>,
    depth: nat,
)
    requires
        cache_filled(tree, files, cache),
        rootfs::canonical_dir(tree, files, Map::empty(), path, depth).0 is Ok,
    ensures
        rootfs::canonical_dir(tree, files, cache, path, depth).0 == rootfs::canonical_dir(
            tree,
            files,
            Map::empty(),
            path,
            depth,
        ).0,
{
    lemma_larger_cache(tree, files, Map::empty(), cache, path, depth);
}

/// Canonicalizing the parent keeps the final component.
pub proof fn lemma_canonical_parent_name(
    tree: Tree,
    files: Map<Seq<Comp>, FileFacts>,
    cache: Cache,
    path: Seq<Comp>,
)
    requires
        path::is_absolute(path),
    ensures
        match rootfs::canonical_parent(tree, files, cache, path).0 {
            Ok(p) => p.len() > 0 && p.last() == path.last(),
            Err(_) => true,
        },
{
}

// ------------------------------------------------------------- following links

/// Whether a path is listed as a symbolic link.
pub open spec fn listed_as_link(files: Map<Seq<Comp>, FileFacts>, p: Seq<Comp>) -> bool {
    files.contains_key(p) && files[p].file_type == FileType::Symlink
}

/// Whether a path starts from the root, and neither it nor a directory above it is listed
/// as a symbolic link.
pub open spec fn without_links(files: Map<Seq<Comp>, FileFacts>, p: Seq<Comp>) -> bool {
    &&& p.len() > 0 && p[0] is RootDir
    &&& forall|i: int| 1 <= i < p.len() ==> #[trigger] p[i] is Normal
    &&& forall|k: int| 2 <= k <= p.len() ==> !listed_as_link(files, #[trigger] p.take(k))
}

/// A path without links leads to itself.
pub proof fn lemma_leads_to_itself(
    tree: Tree,
    files: Map<Seq<Comp>, FileFacts>,
    p: Seq<Comp>,
    links: nat,
)
    requires
        without_links(files, p),
    ensures
        resolved(tree, files, p, links) == Some(p),
        leads_to(tree, files, p, p),
    decreases p.len(),
{
    if p.len() > 1 {
        let dir = p.drop_last();
        assert(p.take(p.len() as int) =~= p);
        assert(dir.push(p.last()) =~= p);
        assert forall|i: int| 1 <= i < dir.len() implies #[trigger] dir[i] is Normal by {
            assert(dir[i] == p[i]);
        }
        assert forall|k: int| 2 <= k <= dir.len() implies !listed_as_link(
            files,
            #[trigger] dir.take(k),
        ) by {
            assert(dir.take(k) =~= p.take(k));
        }
        lemma_leads_to_itself(tree, files, dir, links);
    }
    assert(resolved(tree, files, p, links) == Some(p));
}

/// What is not listed as a link stays where it is, in the directory that the one above it
/// leads to.
pub proof fn lemma_no_link(
    tree: Tree,
    files: Map<Seq<Comp>, FileFacts>,
    up: Seq<Comp>,
    dir: Seq<Comp>,
    name: Seq<char>,
)
    requires
        up.len() > 0,
        leads_to(tree, files, up, dir),
        !listed_as_link(files, dir.push(Comp::Normal(name))),
    ensures
        leads_to(
            tree,
            files,
            up.push(Comp::Normal(name)),
            dir.push(Comp::Normal(name)),
        ),
{
    let n = choose|links: nat| #[trigger] resolved(tree, files, up, links) == Some(dir);
    let path = up.push(Comp::Normal(name));
    assert(path.drop_last() =~= up);
    assert(resolved(tree, files, path, n) == Some(dir.push(Comp::Normal(name))));
}

/// Where a link leads: a relative target is taken from the directory that the link is in,
/// an absolute one from the root, and the `.` and `..` of both are resolved.
pub proof fn lemma_link_leads(
    tree: Tree,
    files: Map<Seq<Comp>, FileFacts>,
    up: Seq<Comp>,
    dir: Seq<Comp>,
    name: Seq<char>,
    target: Seq<Comp>,
    end: Seq<Comp>,
)
    requires
        up.len() > 0,
        dir.len() > 0,
        leads_to(tree, files, up, dir),
        listed_as_link(files, dir.push(Comp::Normal(name))),
        tree.links.contains_key(dir.push(Comp::Normal(name)).skip(1)),
        tree.links[dir.push(Comp::Normal(name)).skip(1)] == Link::Target(target),
    ensures
        target.len() > 0 && target[0] is RootDir ==> (leads_to(
            tree,
            files,
            up.push(Comp::Normal(name)),
            end,
        ) <==> leads_to(tree, files, path::normalized(target), end)),
        target.len() > 0 && (target[0] is Normal || target[0] is ParentDir) ==> (leads_to(
            tree,
            files,
            up.push(Comp::Normal(name)),
            end,
        ) <==> leads_to(tree, files, path::normalized(dir + target), end)),
{
    let path = up.push(Comp::Normal(name));
    let here = dir.push(Comp::Normal(name));
    let to = rootfs::link_destination(dir, target);
    assert(path.drop_last() =~= up);
    let m = choose|links: nat| #[trigger] resolved(tree, files, up, links) == Some(dir);
    if leads_to(tree, files, path, end) {
        let n = choose|links: nat| #[trigger] resolved(tree, files, path, links) == Some(end);
        let other = resolved(tree, files, up, n)->Some_0;
        assert(leads_to(tree, files, up, other));
        lemma_leads_to_one(tree, files, up, dir, other);
        assert(resolved(tree, files, to, (n - 1) as nat) == Some(end));
        assert(leads_to(tree, files, to, end));
    }
    if leads_to(tree, files, to, end) {
        let n = choose|links: nat| #[trigger] resolved(tree, files, to, links) == Some(end);
        let all = if m <= n + 1 {
            n + 1
        } else {
            m
        };
        lemma_resolved_monotone(tree, files, up, m, all);
        lemma_resolved_monotone(tree, files, to, n, (all - 1) as nat);
        assert(resolved(tree, files, path, all) == Some(end));
        assert(leads_to(tree, files, path, end));
    }
}

/// A link in a directory without links, to a relative target of names: its canonical path
/// is the target as seen from that directory, where that goes through no link.
pub proof fn lemma_relative_link(
    tree: Tree,
    files: Map<Seq<Comp>, FileFacts>,
    cache: Cache,
    dir: Seq<Comp>,
    name: Seq<char>,
    target: Seq<Comp>,
)
    requires
        cache_true(tree, files, cache),
        without_links(files, dir),
        listed_as_link(files, dir.push(Comp::Normal(name))),
        tree.links.contains_key(dir.push(Comp::Normal(name)).skip(1)),
        tree.links[dir.push(Comp::Normal(name)).skip(1)] == Link::Target(target),
        target.len() > 0,
        forall|i: int| 0 <= i < target.len() ==> #[trigger] target[i] is Normal,
        without_links(files, dir + target),
    ensures
        rootfs::canonical_dir(tree, files, cache, dir.push(Comp::Normal(name)), 0).0 == Ok::<
            _,
            rootfs::CanonicalizeFailure,
        >(dir + target),
{
    let path = dir.push(Comp::Normal(name));
    assert(path.drop_last() =~= dir);
    lemma_leads_to_itself(tree, files, dir, 40);
    lemma_leads_to_itself(tree, files, dir + target, 39);
    path::lemma_plain_fixed(dir + target);
    assert(!(target[0] is RootDir) && !(target[0] is CurDir));
    assert(rootfs::link_destination(dir, target) == dir + target);
    assert(resolved(tree, files, path, 40) == Some(dir + target));
    lemma_cache_transparent(tree, files, cache, path, 0);
}

/// A link to an absolute target of names below the root: its canonical path is the
/// target, where that goes through no link.
pub proof fn lemma_absolute_link(
    tree: Tree,
    files: Map<Seq<Comp>, FileFacts>,
    cache: Cache,
    dir: Seq<Comp>,
    name: Seq<char>,
    target: Seq<Comp>,
)
    requires
        cache_true(tree, files, cache),
        without_links(files, dir),
        listed_as_link(files, dir.push(Comp::Normal(name))),
        tree.links.contains_key(dir.push(Comp::Normal(name)).skip(1)),
        tree.links[dir.push(Comp::Normal(name)).skip(1)] == Link::Target(target),
        without_links(files, target),
    ensures
        rootfs::canonical_dir(tree, files, cache, dir.push(Comp::Normal(name)), 0).0 == Ok::<
            _,
            rootfs::CanonicalizeFailure,
        >(target),
{
    let path = dir.push(Comp::Normal(name));
    assert(path.drop_last() =~= dir);
    lemma_leads_to_itself(tree, files, dir, 40);
    lemma_leads_to_itself(tree, files, target, 39);
    path::lemma_plain_fixed(target);
    assert(resolved(tree, files, path, 40) == Some(target));
    lemma_cache_transparent(tree, files, cache, path, 0);
}

/// A link that cannot be read, or whose target is no text, has no canonical path.
pub proof fn lemma_unreadable_link(
    tree: Tree,
    files: Map<Seq<Comp>, FileFacts>,
    cache: Cache,
    dir: Seq<Comp>,
    name: Seq<char>,
)
    requires
        cache_true(tree, files, cache),
        without_links(files, dir),
        listed_as_link(files, dir.push(Comp::Normal(name))),
        tree.links.contains_key(dir.push(Comp::Normal(name)).skip(1)) ==> tree.links[dir.push(
            Comp::Normal(name),
        ).skip(1)] is NotUtf8,
    ensures
        rootfs::canonical_dir(tree, files, cache, dir.push(Comp::Normal(name)), 0).0 == Err::<
            Seq<Comp>,
            _,
        >(
            rootfs::CanonicalizeFailure {
                kind: if tree.links.contains_key(dir.push(Comp::Normal(name)).skip(1)) {
                    rootfs::CanonicalizeErrorKind::NotUtf8
                } else {
                    rootfs::CanonicalizeErrorKind::ReadLink
                },
                path: dir.push(Comp::Normal(name)),
            },
        ),
{
    let path = dir.push(Comp::Normal(name));
    assert(path.drop_last() =~= dir);
    lemma_leads_to_itself(tree, files, dir, 40);
    lemma_cache_transparent(tree, files, cache, dir, 0);
    if cache.contains_key(path) {
        let n = choose|links: nat| #[trigger]
            resolved(tree, files, path, links) == Some(cache[path]);
        lemma_leads_to_itself(tree, files, dir, n);
    }
}

/// The canonical parent is where the directory leads through up to 40 links one after
/// another, and the final component is as it is, link or not.
pub proof fn lemma_parent_leads(
    tree: Tree,
    files: Map<Seq<Comp>, FileFacts>,
    cache: Cache,
    up: Seq<Comp>,
    dir: Seq<Comp>,
    name: Seq<char>,
)
    requires
        cache_true(tree, files, cache),
        up.len() > 0,
        resolved(tree, files, up, 40) == Some(dir),
    ensures
        rootfs::canonical_parent(tree, files, cache, up.push(Comp::Normal(name))).0 == Ok::<
            _,
            rootfs::CanonicalizeFailure,
        >(dir.push(Comp::Normal(name))),
{
    assert(up.push(Comp::Normal(name)).drop_last() =~= up);
    lemma_cache_transparent(tree, files, cache, up, 0);
}

/// Whether a path is a link that leads to `end`, before links on the way there are
/// resolved.
pub open spec fn leads_at_once(
    tree: Tree,
    files: Map<Seq<Comp>, FileFacts>,
    link: Seq<Comp>,
    end: Seq<Comp>,
) -> bool {
    &&& listed_as_link(files, link)
    &&& tree.links.contains_key(link.skip(1))
    &&& tree.links[link.skip(1)] matches Link::Target(target)
    &&& end == path::normalized(path::joined(link.drop_last(), target))
}

/// What a failure names: a link that could not be read, a link whose target is no text, or
/// the end of the link that was one too many.
pub proof fn lemma_failure_named(
    tree: Tree,
    files: Map<Seq<Comp>, FileFacts>,
    cache: Cache,
    path: Seq<Comp>,
    depth: nat,
)
    requires
        depth <= 40,
    ensures
        rootfs::canonical_dir(tree, files, cache, path, depth).0 matches Err(f) ==> match f.kind {
            CanonicalizeErrorKind::ReadLink => listed_as_link(files, f.path)
                && !tree.links.contains_key(f.path.skip(1)),
            CanonicalizeErrorKind::NotUtf8 => listed_as_link(files, f.path)
                && tree.links.contains_key(f.path.skip(1)) && tree.links[f.path.skip(1)] is NotUtf8,
            CanonicalizeErrorKind::TooManyLinks => exists|link: Seq<Comp>| #[trigger]
                leads_at_once(tree, files, link, f.path),
        },
    decreases 40 - depth, path.len(),
{
    if !cache.contains_key(path) && path.len() > 1 {
        let up = path.drop_last();
        lemma_failure_named(tree, files, cache, up, depth);
        let (at, seen) = rootfs::canonical_dir(tree, files, cache, up, depth);
        if let Ok(dir) = at {
            let here = dir.push(path.last());
            assert(here.drop_last() =~= dir);
            if rootfs::is_symlink(files, here) && tree.links.contains_key(here.skip(1)) {
                if let Link::Target(target) = tree.links[here.skip(1)] {
                    let end = rootfs::link_destination(dir, target);
                    assert(leads_at_once(tree, files, here, end));
                    if depth < 40 {
                        lemma_failure_named(tree, files, seen, end, depth + 1);
                    }
                }
            }
        }
    }
}

} // verus!
