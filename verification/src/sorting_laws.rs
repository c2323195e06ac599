//! What holds of every sorting of files into components.
use vstd::prelude::*;

use crate::component_map::Contents;
use crate::components::{ComponentId, ComponentsRepo};
use crate::file_info::FileFacts;
use crate::path::Comp;
use crate::path_map;
use crate::ranking;
use crate::repos;
use crate::repos::{ClaimStrength, Key, Sorting};
use crate::rootfs::Tree;

verus! {

impl<R: ComponentsRepo> Sorting<R> {
    /// The paths are those of the files, in path order.
    pub open spec fn wf(self) -> bool {
        &&& path_map::in_path_order(self.paths)
        &&& forall|p: Seq<Comp>| #[trigger] self.paths.contains(p) <==> self.files.contains_key(p)
    }

    /// No two components have one name, and none has that of the catch-all.
    pub open spec fn distinct_names(self) -> bool {
        &&& forall|a: Key, b: Key|
            #![trigger self.claims().contains_key(a), self.claims().contains_key(b)]
            self.claims().contains_key(a) && self.claims().contains_key(b) && self.name(a)
                == self.name(b) ==> a == b
        &&& forall|a: Key| #[trigger]
            self.claims().contains_key(a) ==> self.name(a) != repos::UNCLAIMED_COMPONENT@
    }
}

/// Full names differ where the names of the repos hold no slash, and the repos or the
/// components have different names.
pub proof fn lemma_full_name(a: Seq<char>, x: Seq<char>, b: Seq<char>, y: Seq<char>)
    requires
        !a.contains('/'),
        !b.contains('/'),
        repos::full_name(a, x) == repos::full_name(b, y),
    ensures
        a == b,
        x == y,
{
    let s = repos::full_name(a, x);
    assert(s[a.len() as int] == '/');
    assert(s[b.len() as int] == '/');
    if a.len() < b.len() {
        assert(b[a.len() as int] == s[a.len() as int]);
        assert(b.contains('/'));
    }
    if b.len() < a.len() {
        assert(a[b.len() as int] == s[b.len() as int]);
        assert(a.contains('/'));
    }
    assert(a =~= s.take(a.len() as int));
    assert(b =~= s.take(b.len() as int));
    assert(x =~= s.skip(a.len() as int + 1));
    assert(y =~= s.skip(b.len() as int + 1));
}

/// The names are all different where those of the repos are, without a slash in them,
/// and those of the components of each repo are.
pub proof fn lemma_distinct_names<R: ComponentsRepo>(sorting: Sorting<R>)
    requires
        forall|i: int, j: int|
            0 <= i < j < sorting.repos.len() ==> (#[trigger] sorting.repos[i]).repo_name() != (
            #[trigger] sorting.repos[j]).repo_name(),
        forall|i: int|
            0 <= i < sorting.repos.len() ==> !(
            #[trigger] sorting.repos[i]).repo_name().contains('/')
                && sorting.repos[i].repo_name() != "chunkah"@,
        forall|repo: int, a: ComponentId, b: ComponentId|
            #![trigger sorting.claims().contains_key((repo, a)), sorting.claims().contains_key((repo, b))]
            sorting.claims().contains_key((repo, a)) && sorting.claims().contains_key((repo, b))
                && sorting.repos[repo].facts(a).name == sorting.repos[repo].facts(b).name ==> a
                == b,
    ensures
        sorting.distinct_names(),
{
    assert forall|a: Key| #[trigger] sorting.claims().contains_key(a) implies 0 <= a.0
        < sorting.repos.len() by {
        lemma_key_place(sorting, a);
    }
    assert forall|a: Key, b: Key|
        #![trigger sorting.claims().contains_key(a), sorting.claims().contains_key(b)]
        sorting.claims().contains_key(a) && sorting.claims().contains_key(b) && sorting.name(a)
            == sorting.name(b) implies a == b by {
        lemma_full_name(
            sorting.repos[a.0].repo_name(),
            sorting.repos[a.0].facts(a.1).name,
            sorting.repos[b.0].repo_name(),
            sorting.repos[b.0].facts(b.1).name,
        );
        if a.0 < b.0 {
            assert(sorting.repos[a.0].repo_name() != sorting.repos[b.0].repo_name());
        } else if b.0 < a.0 {
            assert(sorting.repos[b.0].repo_name() != sorting.repos[a.0].repo_name());
        }
        assert(sorting.claims().contains_key((a.0, a.1)));
        assert(sorting.claims().contains_key((a.0, b.1)));
    }
    assert forall|a: Key| #[trigger] sorting.claims().contains_key(a) implies sorting.name(a)
        != repos::UNCLAIMED_COMPONENT@ by {
        if sorting.name(a) == repos::UNCLAIMED_COMPONENT@ {
            reveal_strlit("chunkah/unclaimed");
            reveal_strlit("chunkah");
            reveal_strlit("unclaimed");
            assert("chunkah/unclaimed"@ =~= repos::full_name("chunkah"@, "unclaimed"@));
            lemma_full_name(
                sorting.repos[a.0].repo_name(),
                sorting.repos[a.0].facts(a.1).name,
                "chunkah"@,
                "unclaimed"@,
            );
        }
    }
}

proof fn lemma_key_place<R: ComponentsRepo>(sorting: Sorting<R>, key: Key)
    requires
        sorting.claims().contains_key(key),
    ensures
        0 <= key.0 < sorting.repos.len(),
{
    let strong = sorting.strong();
    let weak = sorting.weak();
    if exists|p: Seq<Comp>| #[trigger] sorting.leftovers().contains(p) && weak.goes_to(p, key) {
        let p = choose|p: Seq<Comp>| #[trigger]
            sorting.leftovers().contains(p) && weak.goes_to(p, key);
        lemma_first_claim(weak.repos, 0, weak.strength, weak.tree, p, weak.files[p]);
    } else {
        let p = choose|p: Seq<Comp>| #[trigger]
            sorting.paths.contains(p) && strong.goes_to(p, key);
        lemma_first_claim(strong.repos, 0, strong.strength, strong.tree, p, strong.files[p]);
    }
}

/// The repo whose claim on a file counts is the first one that claims it: the repos
/// before it do not claim the file, and it is given to all the components for which
/// the repo claims it.
pub proof fn lemma_first_claim<R: ComponentsRepo>(
    repos: Seq<R>,
    from: int,
    strength: ClaimStrength,
    tree: Tree,
    p: Seq<Comp>,
    info: FileFacts,
)
    requires
        0 <= from,
    ensures
        repos::first_claim(repos, from, strength, tree, p, info) matches Ok(Some((repo, ids))) ==> {
            &&& from <= repo < repos.len()
            &&& ids.len() > 0
            &&& repos::answer(repos[repo], strength, tree, p, info) == Ok::<_, Seq<char>>(ids)
            &&& claim_nothing(repos, from, repo, strength, tree, p, info)
        },
        repos::first_claim(repos, from, strength, tree, p, info) matches Ok(None) ==> claim_nothing(
            repos,
            from,
            repos.len() as int,
            strength,
            tree,
            p,
            info,
        ),
        repos::first_claim(repos, from, strength, tree, p, info) matches Err(message) ==> exists|
            i: int,
        | #[trigger] fails_at(repos, from, i, strength, tree, p, info, message),
    decreases repos.len() - from,
{
    if from < repos.len() {
        let next = repos::first_claim(repos, from + 1, strength, tree, p, info);
        match repos::answer(repos[from], strength, tree, p, info) {
            Ok(ids) => {
                if ids.len() == 0 {
                    assert(ids =~= Seq::empty());
                    assert(repos::first_claim(repos, from, strength, tree, p, info) == next);
                    lemma_first_claim(repos, from + 1, strength, tree, p, info);
                    match next {
                        Ok(_) => {},
                        Err(message) => {
                            let i = choose|i: int| #[trigger]
                                fails_at(repos, from + 1, i, strength, tree, p, info, message);
                            assert(fails_at(repos, from, i, strength, tree, p, info, message));
                            assert(exists|k: int| #[trigger]
                                fails_at(repos, from, k, strength, tree, p, info, message));
                        },
                    }
                } else {
                    assert(repos::first_claim(repos, from, strength, tree, p, info) == Ok::<
                        _,
                        Seq<char>,
                    >(Some((from, ids))));
                }
            },
            Err(message) => {
                assert(repos::first_claim(repos, from, strength, tree, p, info) == Err::<
                    Option<(int, Seq<ComponentId>)>,
                    _,
                >(message));
                assert(fails_at(repos, from, from, strength, tree, p, info, message));
                assert(exists|k: int| #[trigger]
                    fails_at(repos, from, k, strength, tree, p, info, message));
            },
        }
    }
    if let Err(message) = repos::first_claim(repos, from, strength, tree, p, info) {
        assert(from < repos.len());
        assert(exists|k: int| #[trigger]
            fails_at(repos, from, k, strength, tree, p, info, message));
    }
}

/// Whether the repo at `i` fails to answer, and those from `from` up to it claim nothing.
pub open spec fn fails_at<R: ComponentsRepo>(
    repos: Seq<R>,
    from: int,
    i: int,
    strength: ClaimStrength,
    tree: Tree,
    p: Seq<Comp>,
    info: FileFacts,
    message: Seq<char>,
) -> bool {
    &&& from <= i < repos.len()
    &&& repos::answer(repos[i], strength, tree, p, info) == Err::<Seq<ComponentId>, _>(message)
    &&& claim_nothing(repos, from, i, strength, tree, p, info)
}

/// Whether the repos from `from` up to `to` answer, and claim nothing.
pub open spec fn claim_nothing<R: ComponentsRepo>(
    repos: Seq<R>,
    from: int,
    to: int,
    strength: ClaimStrength,
    tree: Tree,
    p: Seq<Comp>,
    info: FileFacts,
) -> bool {
    forall|i: int|
        from <= i < to ==> repos::answer(#[trigger] repos[i], strength, tree, p, info) == Ok::<
            _,
            Seq<char>,
        >(Seq::<ComponentId>::empty())
}

proof fn lemma_fails<R: ComponentsRepo>(
    repos: Seq<R>,
    from: int,
    i: int,
    strength: ClaimStrength,
    tree: Tree,
    p: Seq<Comp>,
    info: FileFacts,
    message: Seq<char>,
)
    requires
        fails_at(repos, from, i, strength, tree, p, info, message),
    ensures
        repos::first_claim(repos, from, strength, tree, p, info) is Err,
    decreases i - from,
{
    if from < i {
        assert(repos::answer(repos[from], strength, tree, p, info) == Ok::<_, Seq<char>>(
            Seq::<ComponentId>::empty(),
        ));
        assert(fails_at(repos, from + 1, i, strength, tree, p, info, message));
        lemma_fails(repos, from + 1, i, strength, tree, p, info, message);
    }
}

/// A sorting fails if and only if there is a file that no repo strongly claims, and a
/// repo that fails to tell whether it weakly claims it, while those before it do not.
pub proof fn lemma_when_sorting_fails<R: ComponentsRepo>(sorting: Sorting<R>)
    requires
        sorting.wf(),
    ensures
        sorting.failure() is Some <==> exists|p: Seq<Comp>, i: int, message: Seq<char>| #[trigger]
            fails_for(sorting, p, i, message),
{
    let weak = sorting.weak();
    if sorting.failure() is Some {
        let p = lemma_failing_path(weak, sorting.leftovers());
        lemma_leftovers(sorting, p);
        lemma_first_claim(weak.repos, 0, weak.strength, weak.tree, p, weak.files[p]);
        let message = weak.claim(p)->Err_0;
        let i = choose|i: int| #[trigger]
            fails_at(weak.repos, 0, i, weak.strength, weak.tree, p, weak.files[p], message);
        assert(fails_for(sorting, p, i, message));
    }
    if exists|p: Seq<Comp>, i: int, message: Seq<char>| #[trigger]
        fails_for(sorting, p, i, message) {
        let (p, i, message) = choose|p: Seq<Comp>, i: int, message: Seq<char>| #[trigger]
            fails_for(sorting, p, i, message);
        lemma_leftovers(sorting, p);
        lemma_fails(weak.repos, 0, i, weak.strength, weak.tree, p, weak.files[p], message);
        if sorting.failure() is None {
            lemma_answered(weak, sorting.leftovers(), p);
        }
    }
}

/// Whether no repo strongly claims a file, and the repo at `i` fails to tell whether it
/// weakly claims it, while those before it do not.
pub open spec fn fails_for<R: ComponentsRepo>(
    sorting: Sorting<R>,
    p: Seq<Comp>,
    i: int,
    message: Seq<char>,
) -> bool {
    &&& sorting.files.contains_key(p)
    &&& sorting.strong().left(p)
    &&& fails_at(
        sorting.repos,
        0,
        i,
        ClaimStrength::Weak,
        sorting.tree,
        p,
        sorting.files[p],
        message,
    )
}

proof fn lemma_failing_path<R: ComponentsRepo>(
    pass: repos::Pass<R>,
    paths: Seq<Seq<Comp>>,
) -> (p: Seq<Comp>)
    requires
        pass.failure(paths) is Some,
    ensures
        paths.contains(p),
        pass.claim(p) is Err,
    decreases paths.len(),
{
    if pass.failure(paths.drop_last()) is Some {
        let p = lemma_failing_path(pass, paths.drop_last());
        assert(paths[paths.drop_last().index_of(p)] == p);
        p
    } else {
        assert(paths[paths.len() - 1] == paths.last());
        paths.last()
    }
}

/// Repos of higher priority win: where the claim of a repo on a file counts, no repo
/// of a lower priority value claims the file.
pub proof fn lemma_priority_wins<R: ComponentsRepo>(
    given: Seq<R>,
    strength: ClaimStrength,
    tree: Tree,
    p: Seq<Comp>,
    info: FileFacts,
    other: int,
)
    requires
        repos::first_claim(ranking::ranked(given), 0, strength, tree, p, info) matches Ok(
            Some((repo, ids)),
        ) && 0 <= other < given.len() && ranking::ranked(given)[other].priority()
            < ranking::ranked(given)[repo].priority(),
    ensures
        repos::answer(ranking::ranked(given)[other], strength, tree, p, info) == Ok::<_, Seq<char>>(
            Seq::<ComponentId>::empty(),
        ),
{
    let order = ranking::ranked(given);
    ranking::lemma_ranked(given, 0);
    lemma_first_claim(order, 0, strength, tree, p, info);
    if let Ok(Some((repo, ids))) = repos::first_claim(order, 0, strength, tree, p, info) {
        if repo <= other {
            assert(order[repo].priority() <= order[other].priority());
        }
    }
}

proof fn lemma_leftovers<R: ComponentsRepo>(sorting: Sorting<R>, p: Seq<Comp>)
    requires
        sorting.wf(),
    ensures
        sorting.leftovers().contains(p) <==> sorting.files.contains_key(p) && sorting.strong().left(
            p,
        ),
        sorting.leftovers().contains(p) ==> sorting.weak().files[p] == sorting.files[p],
{
    path_map::lemma_filter_order(sorting.paths, |q: Seq<Comp>| sorting.strong().left(q));
    assert(sorting.paths.contains(p) <==> sorting.files.contains_key(p));
}

/// A file goes to the components for which the first repo that strongly claims it
/// does so. A weak claim counts only where no repo strongly claims the file.
pub proof fn lemma_where_files_go<R: ComponentsRepo>(sorting: Sorting<R>, p: Seq<Comp>, key: Key)
    requires
        sorting.wf(),
        sorting.files.contains_key(p),
    ensures
        sorting.claims().contains_key(key) && sorting.claims()[key].contains_key(p)
            <==> sorting.strong().goes_to(p, key) || sorting.strong().left(p)
            && sorting.weak().goes_to(p, key),
{
    lemma_leftovers(sorting, p);
    assert(sorting.paths.contains(p));
    let strong = sorting.strong();
    let weak = sorting.weak();
    let before = strong.claims(Map::empty(), sorting.paths);
    if strong.goes_to(p, key) {
        assert(before.contains_key(key));
        assert(before[key].contains_key(p));
    }
    if strong.left(p) && weak.goes_to(p, key) {
        assert(sorting.leftovers().contains(p));
    }
}

/// A file goes to the catch-all where no repo claims it, neither strongly nor weakly.
pub proof fn lemma_where_others_go<R: ComponentsRepo>(sorting: Sorting<R>, p: Seq<Comp>)
    requires
        sorting.wf(),
    ensures
        sorting.unclaimed().contains_key(p) <==> sorting.files.contains_key(p)
            && sorting.strong().left(p) && sorting.weak().left(p),
        sorting.unclaimed().contains_key(p) ==> sorting.unclaimed()[p] == sorting.files[p],
{
    lemma_leftovers(sorting, p);
}

/// The components hold nothing but files, each with its own metadata.
pub proof fn lemma_only_files<R: ComponentsRepo>(
    sorting: Sorting<R>,
    default_mtime_clamp: u64,
    map: Map<Seq<char>, Contents>,
    name: Seq<char>,
    p: Seq<Comp>,
)
    requires
        sorting.wf(),
        sorting.sorted(default_mtime_clamp, map),
        map.contains_key(name),
        map[name].files.contains_key(p),
    ensures
        sorting.files.contains_key(p),
        map[name].files[p] == sorting.files[p],
{
    lemma_leftovers(sorting, p);
    assert(sorting.paths.contains(p) <==> sorting.files.contains_key(p));
    if !(sorting.has_catch_all() && name == repos::UNCLAIMED_COMPONENT@) {
        let key = choose|key: Key| #[trigger] sorting.is_component(key, name, map[name]);
        lemma_claimed_facts(sorting, key, p);
    }
}

proof fn lemma_claimed_facts<R: ComponentsRepo>(sorting: Sorting<R>, key: Key, p: Seq<Comp>)
    requires
        sorting.wf(),
        sorting.claims().contains_key(key),
        sorting.claims()[key].contains_key(p),
    ensures
        sorting.files.contains_key(p),
        sorting.claims()[key][p] == sorting.files[p],
{
    lemma_leftovers(sorting, p);
    assert(sorting.paths.contains(p) <==> sorting.files.contains_key(p));
}

/// Where the names are all different, every component that has files is there, with
/// all its files.
pub proof fn lemma_all_components<R: ComponentsRepo>(
    sorting: Sorting<R>,
    default_mtime_clamp: u64,
    map: Map<Seq<char>, Contents>,
    key: Key,
)
    requires
        sorting.sorted(default_mtime_clamp, map),
        sorting.distinct_names(),
        sorting.claims().contains_key(key),
    ensures
        map.contains_key(sorting.name(key)),
        map[sorting.name(key)] == sorting.contents(key),
{
    let name = sorting.name(key);
    assert(map.contains_key(name));
    let other = choose|k: Key| #[trigger] sorting.is_component(k, name, map[name]);
    assert(sorting.is_component(other, name, map[name]));
    assert(sorting.claims().contains_key(other));
}

/// Where the names are all different, there is one result.
pub proof fn lemma_one_result<R: ComponentsRepo>(
    sorting: Sorting<R>,
    default_mtime_clamp: u64,
    a: Map<Seq<char>, Contents>,
    b: Map<Seq<char>, Contents>,
)
    requires
        sorting.sorted(default_mtime_clamp, a),
        sorting.sorted(default_mtime_clamp, b),
        sorting.distinct_names(),
    ensures
        a == b,
{
    assert forall|name: Seq<char>| a.contains_key(name) implies b.contains_key(name) && b[name]
        == a[name] by {
        lemma_result_in(sorting, default_mtime_clamp, a, b, name);
    }
    assert forall|name: Seq<char>| b.contains_key(name) implies a.contains_key(name) by {
        lemma_result_in(sorting, default_mtime_clamp, b, a, name);
    }
    assert(a =~= b);
}

proof fn lemma_result_in<R: ComponentsRepo>(
    sorting: Sorting<R>,
    default_mtime_clamp: u64,
    a: Map<Seq<char>, Contents>,
    b: Map<Seq<char>, Contents>,
    name: Seq<char>,
)
    requires
        sorting.sorted(default_mtime_clamp, a),
        sorting.sorted(default_mtime_clamp, b),
        sorting.distinct_names(),
        a.contains_key(name),
    ensures
        b.contains_key(name),
        b[name] == a[name],
{
    if !(sorting.has_catch_all() && name == repos::UNCLAIMED_COMPONENT@) {
        let key = choose|key: Key| #[trigger] sorting.is_component(key, name, a[name]);
        lemma_all_components(sorting, default_mtime_clamp, b, key);
    }
}

/// The order in which repos of different priorities are given makes no difference to
/// the result.
pub proof fn lemma_permuted_result<R: ComponentsRepo>(
    given: Seq<R>,
    permuted: Seq<R>,
    sorting: Sorting<R>,
    default_mtime_clamp: u64,
    a: Map<Seq<char>, Contents>,
    b: Map<Seq<char>, Contents>,
)
    requires
        ranking::distinct_priorities(given),
        ranking::distinct_priorities(permuted),
        forall|repo: R| #[trigger] given.contains(repo) <==> permuted.contains(repo),
        sorting.repos == ranking::ranked(given),
        sorting.distinct_names(),
        sorting.sorted(default_mtime_clamp, a),
        (Sorting { repos: ranking::ranked(permuted), ..sorting }).sorted(default_mtime_clamp, b),
    ensures
        a == b,
{
    ranking::lemma_permuted(given, permuted);
    assert((Sorting { repos: ranking::ranked(permuted), ..sorting }) == sorting);
    lemma_one_result(sorting, default_mtime_clamp, a, b);
}

/// No file is lost: where the names are all different, every file is in a component,
/// with its own metadata.
pub proof fn lemma_no_file_lost<R: ComponentsRepo>(
    sorting: Sorting<R>,
    default_mtime_clamp: u64,
    map: Map<Seq<char>, Contents>,
    p: Seq<Comp>,
)
    requires
        sorting.wf(),
        sorting.failure() is None,
        sorting.sorted(default_mtime_clamp, map),
        sorting.distinct_names(),
        sorting.files.contains_key(p),
    ensures
        exists|name: Seq<char>| #[trigger]
            map.contains_key(name) && map[name].files.contains_key(p) && map[name].files[p]
                == sorting.files[p],
{
    let strong = sorting.strong();
    let weak = sorting.weak();
    lemma_leftovers(sorting, p);
    repos::lemma_strong_answers(sorting.repos, 0, sorting.tree, p, sorting.files[p]);
    if strong.left(p) {
        lemma_answered(weak, sorting.leftovers(), p);
        if weak.left(p) {
            assert(sorting.unclaimed().contains_key(p));
            assert(map.contains_key(repos::UNCLAIMED_COMPONENT@));
        } else {
            lemma_first_claim(
                weak.repos,
                0,
                weak.strength,
                weak.tree,
                p,
                weak.files[p],
            );
            if let Ok(Some((repo, ids))) = weak.claim(p) {
                let key = (repo, ids[0]);
                assert(weak.goes_to(p, key));
                lemma_where_files_go(sorting, p, key);
                lemma_in_component(sorting, default_mtime_clamp, map, p, key);
            }
        }
    } else {
        lemma_first_claim(strong.repos, 0, strong.strength, strong.tree, p, strong.files[p]);
        if let Ok(Some((repo, ids))) = strong.claim(p) {
            let key = (repo, ids[0]);
            assert(strong.goes_to(p, key));
            lemma_where_files_go(sorting, p, key);
            lemma_in_component(sorting, default_mtime_clamp, map, p, key);
        }
    }
}

proof fn lemma_in_component<R: ComponentsRepo>(
    sorting: Sorting<R>,
    default_mtime_clamp: u64,
    map: Map<Seq<char>, Contents>,
    p: Seq<Comp>,
    key: Key,
)
    requires
        sorting.wf(),
        sorting.sorted(default_mtime_clamp, map),
        sorting.distinct_names(),
        sorting.claims().contains_key(key),
        sorting.claims()[key].contains_key(p),
    ensures
        map.contains_key(sorting.name(key)),
        map[sorting.name(key)].files.contains_key(p),
        map[sorting.name(key)].files[p] == sorting.files[p],
{
    lemma_all_components(sorting, default_mtime_clamp, map, key);
    lemma_claimed_facts(sorting, key, p);
}

proof fn lemma_answered<R: ComponentsRepo>(
    pass: repos::Pass<R>,
    paths: Seq<Seq<Comp>>,
    p: Seq<Comp>,
)
    requires
        pass.failure(paths) is None,
        paths.contains(p),
    ensures
        pass.claim(p) is Ok,
    decreases paths.len(),
{
    if p != paths.last() {
        let i = paths.index_of(p);
        assert(paths[paths.len() - 1] == paths.last());
        assert(paths.drop_last()[i] == p);
        lemma_answered(pass, paths.drop_last(), p);
    }
}

} // verus!
