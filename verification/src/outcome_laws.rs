//! Where the files go, said of the repos as they are given and of the components that
//! come out.
use vstd::prelude::*;

use crate::component_map::Contents;
use crate::components::{ComponentId, ComponentsRepo};
use crate::file_info::FileFacts;
use crate::path::Comp;
use crate::path_map;
use crate::ranking;
use crate::repos;
use crate::repos::{ClaimStrength, ComponentsRepos, Detected, Files, Key, Repo, Sorting};
use crate::rootfs::Tree;
use crate::sorting_laws;
use crate::stability::Stability;

verus! {

/// Whether no repo strongly claims a file.
pub open spec fn no_strong_claim<R: ComponentsRepo>(
    given: Seq<R>,
    p: Seq<Comp>,
    info: FileFacts,
) -> bool {
    forall|j: int| 0 <= j < given.len() ==> (#[trigger] given[j]).strong_claims(p, info).len() == 0
}

/// Whether the repo at `i` has the first strong claim on a file: it claims the file, and
/// no repo of a lower priority value, or of the same and given before it, does.
pub open spec fn first_strong<R: ComponentsRepo>(
    given: Seq<R>,
    i: int,
    p: Seq<Comp>,
    info: FileFacts,
) -> bool {
    &&& 0 <= i < given.len()
    &&& given[i].strong_claims(p, info).len() > 0
    &&& forall|j: int|
        0 <= j < given.len() && (given[j].priority() < given[i].priority() || given[j].priority()
            == given[i].priority() && j < i) ==> (#[trigger] given[j]).strong_claims(p, info).len()
            == 0
}

/// Whether the repos that are asked before the one at `i` for their weak claims on a file
/// have none.
pub open spec fn no_weak_claim_before<R: ComponentsRepo>(
    given: Seq<R>,
    i: int,
    tree: Tree,
    p: Seq<Comp>,
    info: FileFacts,
) -> bool {
    forall|j: int|
        0 <= j < given.len() && (given[j].priority() < given[i].priority() || given[j].priority()
            == given[i].priority() && j < i) ==> ((#[trigger] given[j]).weak_claims(tree, p, info)
            matches Ok(ids) && ids.len() == 0)
}

/// Whether the repo at `i` has the first weak claim on a file.
pub open spec fn first_weak<R: ComponentsRepo>(
    given: Seq<R>,
    i: int,
    tree: Tree,
    p: Seq<Comp>,
    info: FileFacts,
) -> bool {
    &&& 0 <= i < given.len()
    &&& given[i].weak_claims(tree, p, info) matches Ok(ids)
    &&& ids.len() > 0
    &&& no_weak_claim_before(given, i, tree, p, info)
}

/// Whether a file is due to a component of the repo at `i`: the repo has the first strong
/// claim on it, or there is none and it has the first weak claim, and the component is
/// among those for which it claims the file.
pub open spec fn is_due<R: ComponentsRepo>(
    given: Seq<R>,
    i: int,
    id: ComponentId,
    tree: Tree,
    p: Seq<Comp>,
    info: FileFacts,
) -> bool {
    ||| first_strong(given, i, p, info) && given[i].strong_claims(p, info).contains(id)
    ||| no_strong_claim(given, p, info) && first_weak(given, i, tree, p, info)
        && given[i].weak_claims(tree, p, info)->Ok_0.contains(id)
}

/// Whether nobody claims a file.
pub open spec fn is_unclaimed<R: ComponentsRepo>(
    given: Seq<R>,
    tree: Tree,
    p: Seq<Comp>,
    info: FileFacts,
) -> bool {
    &&& no_strong_claim(given, p, info)
    &&& forall|j: int|
        0 <= j < given.len() ==> ((#[trigger] given[j]).weak_claims(tree, p, info) matches Ok(ids)
            && ids.len() == 0)
}

/// Whether the repo at `i` fails to tell whether it weakly claims a file that nobody
/// strongly claims, while those that are asked before it do not claim it.
pub open spec fn is_failing<R: ComponentsRepo>(
    given: Seq<R>,
    i: int,
    tree: Tree,
    p: Seq<Comp>,
    info: FileFacts,
    message: Seq<char>,
) -> bool {
    &&& 0 <= i < given.len()
    &&& no_strong_claim(given, p, info)
    &&& given[i].weak_claims(tree, p, info) == Err::<Seq<ComponentId>, _>(message)
    &&& no_weak_claim_before(given, i, tree, p, info)
}

/// What the passes make of a file, said of the repos as they are given.
proof fn lemma_passes<R: ComponentsRepo>(
    given: Seq<R>,
    tree: Tree,
    p: Seq<Comp>,
    info: FileFacts,
) -> (order: Seq<int>)
    ensures
        ranking::is_asking_order(given, order),
        ranking::ranked(given).len() == given.len(),
        forall|k: int|
            0 <= k < given.len() ==> #[trigger] ranking::ranked(given)[k] == given[order[k]],
        ({
            let ranked = ranking::ranked(given);
            let strong = repos::first_claim(ranked, 0, ClaimStrength::Strong, tree, p, info);
            let weak = repos::first_claim(ranked, 0, ClaimStrength::Weak, tree, p, info);
            &&& strong is Ok
            &&& strong->Ok_0 is None <==> no_strong_claim(given, p, info)
            &&& strong matches Ok(Some((k, ids))) ==> {
                &&& 0 <= k < given.len()
                &&& first_strong(given, order[k], p, info)
                &&& ids == given[order[k]].strong_claims(p, info)
            }
            &&& weak matches Ok(Some((k, ids))) ==> {
                &&& 0 <= k < given.len()
                &&& first_weak(given, order[k], tree, p, info)
                &&& given[order[k]].weak_claims(tree, p, info) == Ok::<_, Seq<char>>(ids)
            }
            &&& weak matches Ok(None) ==> forall|j: int|
                0 <= j < given.len() ==> ((#[trigger] given[j]).weak_claims(tree, p, info)
                    matches Ok(ids) && ids.len() == 0)
            &&& weak matches Err(message) ==> exists|k: int|
                0 <= k < given.len() && (#[trigger] given[order[k]]).weak_claims(tree, p, info)
                    == Err::<Seq<ComponentId>, _>(message) && no_weak_claim_before(
                    given,
                    order[k],
                    tree,
                    p,
                    info,
                )
        }),
{
    let order = ranking::lemma_asking_order(given);
    let ranked = ranking::ranked(given);
    let strong = repos::first_claim(ranked, 0, ClaimStrength::Strong, tree, p, info);
    let weak = repos::first_claim(ranked, 0, ClaimStrength::Weak, tree, p, info);
    repos::lemma_strong_answers(ranked, 0, tree, p, info);
    sorting_laws::lemma_first_claim(ranked, 0, ClaimStrength::Strong, tree, p, info);
    sorting_laws::lemma_first_claim(ranked, 0, ClaimStrength::Weak, tree, p, info);
    // where each repo stands in the order
    assert forall|j: int, k: int|
        #![trigger given[j], order[k]]
        0 <= j < given.len() && 0 <= k < given.len() && ranking::goes_before(
            given,
            j,
            order[k],
        ) implies exists|l: int| 0 <= l < k && #[trigger] order[l] == j by {
        assert(order.contains(j));
        let l = order.index_of(j);
        assert(order[l] == j);
        if k < l {
            assert(ranking::goes_before(given, order[k], order[l]));
        }
    }
    if let Ok(Some((k, ids))) = strong {
        assert(ranked[k] == given[order[k]]);
        assert forall|j: int|
            0 <= j < given.len() && (given[j].priority() < given[order[k]].priority()
                || given[j].priority() == given[order[k]].priority() && j
                < order[k]) implies (#[trigger] given[j]).strong_claims(p, info).len() == 0 by {
            assert(ranking::goes_before(given, j, order[k]));
            let l = choose|l: int| 0 <= l < k && #[trigger] order[l] == j;
            assert(ranked[l] == given[j]);
        }
        assert(given[order[k]].strong_claims(p, info).len() > 0);
        assert(!no_strong_claim(given, p, info));
    } else {
        assert forall|j: int| 0 <= j < given.len() implies (#[trigger] given[j]).strong_claims(
            p,
            info,
        ).len() == 0 by {
            assert(order.contains(j));
            let l = order.index_of(j);
            assert(ranked[l] == given[j]);
        }
    }
    match weak {
        Ok(Some((k, ids))) => {
            assert(ranked[k] == given[order[k]]);
            lemma_none_before(given, order, k, tree, p, info);
        },
        Ok(None) => {
            assert forall|j: int| 0 <= j < given.len() implies ((#[trigger] given[j]).weak_claims(
                tree,
                p,
                info,
            ) matches Ok(ids) && ids.len() == 0) by {
                assert(order.contains(j));
                let l = order.index_of(j);
                assert(ranked[l] == given[j]);
            }
        },
        Err(message) => {
            let k = choose|k: int| #[trigger]
                sorting_laws::fails_at(
                    ranked,
                    0,
                    k,
                    ClaimStrength::Weak,
                    tree,
                    p,
                    info,
                    message,
                );
            assert(ranked[k] == given[order[k]]);
            lemma_none_before(given, order, k, tree, p, info);
            assert(given[order[k]].weak_claims(tree, p, info) == Err::<Seq<ComponentId>, _>(
                message,
            ));
        },
    }
    order
}

proof fn lemma_none_before<R: ComponentsRepo>(
    given: Seq<R>,
    order: Seq<int>,
    k: int,
    tree: Tree,
    p: Seq<Comp>,
    info: FileFacts,
)
    requires
        ranking::is_asking_order(given, order),
        ranking::ranked(given).len() == given.len(),
        forall|l: int|
            0 <= l < given.len() ==> #[trigger] ranking::ranked(given)[l] == given[order[l]],
        0 <= k < given.len(),
        sorting_laws::claim_nothing(
            ranking::ranked(given),
            0,
            k,
            ClaimStrength::Weak,
            tree,
            p,
            info,
        ),
    ensures
        no_weak_claim_before(given, order[k], tree, p, info),
{
    let ranked = ranking::ranked(given);
    assert forall|j: int|
        0 <= j < given.len() && (given[j].priority() < given[order[k]].priority()
            || given[j].priority() == given[order[k]].priority() && j < order[k]) implies ((
    #[trigger] given[j]).weak_claims(tree, p, info) matches Ok(ids) && ids.len() == 0) by {
        assert(order.contains(j));
        let l = order.index_of(j);
        assert(order[l] == j);
        if k < l {
            assert(ranking::goes_before(given, order[k], order[l]));
        }
        assert(ranked[l] == given[j]);
        assert(repos::answer(ranked[l], ClaimStrength::Weak, tree, p, info) == Ok::<_, Seq<char>>(
            Seq::<ComponentId>::empty(),
        ));
    }
}

/// The repo that has the first claim is one.
proof fn lemma_one_first<R: ComponentsRepo>(
    given: Seq<R>,
    a: int,
    b: int,
    tree: Tree,
    p: Seq<Comp>,
    info: FileFacts,
)
    ensures
        first_strong(given, a, p, info) && first_strong(given, b, p, info) ==> a == b,
        first_weak(given, a, tree, p, info) && first_weak(given, b, tree, p, info) ==> a == b,
{
}

proof fn lemma_due_goes<R: ComponentsRepo>(
    given: Seq<R>,
    sorting: Sorting<R>,
    i: int,
    id: ComponentId,
    p: Seq<Comp>,
) -> (key: Key)
    requires
        sorting.wf(),
        sorting.repos == ranking::ranked(given),
        sorting.files.contains_key(p),
        is_due(given, i, id, sorting.tree, p, sorting.files[p]),
    ensures
        key.1 == id,
        0 <= key.0 < sorting.repos.len(),
        sorting.repos[key.0] == given[i],
        sorting.claims().contains_key(key),
        sorting.claims()[key].contains_key(p),
{
    let info = sorting.files[p];
    let order = lemma_passes(given, sorting.tree, p, info);
    assert(sorting.paths.contains(p));
    let strong = repos::first_claim(
        sorting.repos,
        0,
        ClaimStrength::Strong,
        sorting.tree,
        p,
        info,
    );
    assert(strong == sorting.strong().claim(p));
    if first_strong(given, i, p, info) && given[i].strong_claims(p, info).contains(id) {
        assert(!no_strong_claim(given, p, info));
        let k = (strong->Ok_0->Some_0).0;
        lemma_one_first(given, i, order[k], sorting.tree, p, info);
        let key: Key = (k, id);
        assert(sorting.repos[k] == given[order[k]]);
        assert(sorting.strong().goes_to(p, key));
        sorting_laws::lemma_where_files_go(sorting, p, key);
        key
    } else {
        assert(sorting.strong().left(p));
        let weak = repos::first_claim(
            sorting.repos,
            0,
            ClaimStrength::Weak,
            sorting.tree,
            p,
            info,
        );
        assert(sorting.weak().files[p] == info);
        assert(weak == sorting.weak().claim(p));
        assert(order.contains(i));
        if let Err(message) = weak {
            let k = choose|k: int|
                0 <= k < given.len() && (#[trigger] given[order[k]]).weak_claims(
                    sorting.tree,
                    p,
                    info,
                ) == Err::<Seq<ComponentId>, _>(message) && no_weak_claim_before(
                    given,
                    order[k],
                    sorting.tree,
                    p,
                    info,
                );
            assert(given[order[k]].priority() <= given[i].priority() || given[i].priority()
                < given[order[k]].priority());
            assert(order[k] != i);
        }
        let k = (weak->Ok_0->Some_0).0;
        lemma_one_first(given, i, order[k], sorting.tree, p, info);
        let key: Key = (k, id);
        assert(sorting.repos[k] == given[order[k]]);
        assert(sorting.weak().goes_to(p, key));
        sorting_laws::lemma_where_files_go(sorting, p, key);
        key
    }
}

/// Every file goes where it is due: it is in the component under the name of the repo, a
/// slash and the name of the component, with its own metadata, and the component has the
/// mtime clamp and the stability that the repo says.
pub proof fn lemma_due_files<R: ComponentsRepo>(
    loaded: ComponentsRepos<R>,
    tree: Tree,
    files: Files,
    paths: Seq<Seq<Comp>>,
    result: Map<Seq<char>, Contents>,
    i: int,
    id: ComponentId,
    p: Seq<Comp>,
)
    requires
        loaded.sorting(tree, files, paths).wf(),
        loaded.sorting(tree, files, paths).sorted(loaded.default_mtime_clamp, result),
        loaded.sorting(tree, files, paths).distinct_names(),
        files.contains_key(p),
        is_due(loaded.repos@, i, id, tree, p, files[p]),
    ensures
        ({
            let repo = loaded.repos@[i];
            let name = repo.repo_name() + seq!['/'] + repo.facts(id).name;
            &&& result.contains_key(name)
            &&& result[name].files.contains_key(p)
            &&& result[name].files[p] == files[p]
            &&& result[name].mtime_clamp == repo.facts(id).mtime_clamp
            &&& result[name].stability == repo.facts(id).stability
        }),
{
    let sorting = loaded.sorting(tree, files, paths);
    let clamp = loaded.default_mtime_clamp;
    let key = lemma_due_goes(loaded.repos@, sorting, i, id, p);
    sorting_laws::lemma_all_components(sorting, clamp, result, key);
    sorting_laws::lemma_only_files(sorting, clamp, result, sorting.name(key), p);
}

/// A file that nobody claims goes to the catch-all, which has the default mtime clamp and
/// is taken to be unstable.
pub proof fn lemma_unclaimed_files<R: ComponentsRepo>(
    loaded: ComponentsRepos<R>,
    tree: Tree,
    files: Files,
    paths: Seq<Seq<Comp>>,
    result: Map<Seq<char>, Contents>,
    p: Seq<Comp>,
)
    requires
        loaded.sorting(tree, files, paths).wf(),
        loaded.sorting(tree, files, paths).sorted(loaded.default_mtime_clamp, result),
        files.contains_key(p),
        is_unclaimed(loaded.repos@, tree, p, files[p]),
    ensures
        result.contains_key("chunkah/unclaimed"@),
        result["chunkah/unclaimed"@].files.contains_key(p),
        result["chunkah/unclaimed"@].files[p] == files[p],
        result["chunkah/unclaimed"@].mtime_clamp == loaded.default_mtime_clamp,
        result["chunkah/unclaimed"@].stability == Stability::Unstable,
{
    let sorting = loaded.sorting(tree, files, paths);
    lemma_unclaimed_is(loaded.repos@, sorting, p);
    assert(sorting.unclaimed().contains_key(p));
    assert(sorting.has_catch_all());
}

proof fn lemma_unclaimed_is<R: ComponentsRepo>(given: Seq<R>, sorting: Sorting<R>, p: Seq<Comp>)
    requires
        sorting.wf(),
        sorting.repos == ranking::ranked(given),
    ensures
        sorting.unclaimed().contains_key(p) <==> sorting.files.contains_key(p) && is_unclaimed(
            given,
            sorting.tree,
            p,
            sorting.files[p],
        ),
        sorting.unclaimed().contains_key(p) ==> sorting.unclaimed()[p] == sorting.files[p],
{
    let info = sorting.files[p];
    sorting_laws::lemma_where_others_go(sorting, p);
    if sorting.files.contains_key(p) {
        assert(sorting.paths.contains(p));
        let order = lemma_passes(given, sorting.tree, p, info);
        assert(sorting.strong().left(p) <==> no_strong_claim(given, p, info));
        if sorting.strong().left(p) {
            assert(sorting.weak().files[p] == info);
            let weak = sorting.weak().claim(p);
            assert(weak == repos::first_claim(
                sorting.repos,
                0,
                ClaimStrength::Weak,
                sorting.tree,
                p,
                info,
            ));
            match weak {
                Ok(Some((k, ids))) => {
                    assert(given[order[k]].weak_claims(sorting.tree, p, info) == Ok::<
                        _,
                        Seq<char>,
                    >(ids));
                },
                Ok(None) => {},
                Err(message) => {
                    let k = choose|k: int|
                        0 <= k < given.len() && (#[trigger] given[order[k]]).weak_claims(
                            sorting.tree,
                            p,
                            info,
                        ) == Err::<Seq<ComponentId>, _>(message) && no_weak_claim_before(
                            given,
                            order[k],
                            sorting.tree,
                            p,
                            info,
                        );
                    assert(given[order[k]].weak_claims(sorting.tree, p, info) is Err);
                },
            }
        }
    }
}

/// Nothing is where it is not due: what is in a component is a file with its own
/// metadata, and is due to a component of that name, or nobody claims it and the
/// component is the catch-all.
pub proof fn lemma_nothing_else<R: ComponentsRepo>(
    loaded: ComponentsRepos<R>,
    tree: Tree,
    files: Files,
    paths: Seq<Seq<Comp>>,
    result: Map<Seq<char>, Contents>,
    name: Seq<char>,
    p: Seq<Comp>,
)
    requires
        loaded.sorting(tree, files, paths).wf(),
        loaded.sorting(tree, files, paths).sorted(loaded.default_mtime_clamp, result),
        result.contains_key(name),
        result[name].files.contains_key(p),
    ensures
        files.contains_key(p),
        result[name].files[p] == files[p],
        ({
            ||| name == "chunkah/unclaimed"@ && is_unclaimed(loaded.repos@, tree, p, files[p])
            ||| exists|i: int, id: ComponentId| #[trigger]
                is_due(loaded.repos@, i, id, tree, p, files[p]) && name
                    == loaded.repos@[i].repo_name() + seq!['/'] + loaded.repos@[i].facts(id).name
        }),
{
    let sorting = loaded.sorting(tree, files, paths);
    let given = loaded.repos@;
    sorting_laws::lemma_only_files(sorting, loaded.default_mtime_clamp, result, name, p);
    if sorting.has_catch_all() && name == repos::UNCLAIMED_COMPONENT@ {
        lemma_unclaimed_is(given, sorting, p);
    } else {
        let key = choose|key: Key| #[trigger] sorting.is_component(key, name, result[name]);
        assert(sorting.claims()[key].contains_key(p));
        let i = lemma_claimed_due(given, sorting, key, p);
        assert(is_due(given, i, key.1, tree, p, files[p]));
    }
}

proof fn lemma_claimed_due<R: ComponentsRepo>(
    given: Seq<R>,
    sorting: Sorting<R>,
    key: Key,
    p: Seq<Comp>,
) -> (i: int)
    requires
        sorting.wf(),
        sorting.repos == ranking::ranked(given),
        sorting.files.contains_key(p),
        sorting.claims().contains_key(key),
        sorting.claims()[key].contains_key(p),
    ensures
        0 <= i < given.len(),
        sorting.repos[key.0] == given[i],
        is_due(given, i, key.1, sorting.tree, p, sorting.files[p]),
{
    let info = sorting.files[p];
    assert(sorting.paths.contains(p));
    sorting_laws::lemma_where_files_go(sorting, p, key);
    let order = lemma_passes(given, sorting.tree, p, info);
    if sorting.strong().left(p) {
        assert(sorting.weak().files[p] == info);
    }
    assert(sorting.repos[key.0] == given[order[key.0]]);
    order[key.0]
}

/// Files of which a repo of a priority below that of the Python distributions, such as one
/// of a distro package manager, has a strong claim never go to a Python distribution.
pub proof fn lemma_distro_wins<R: ComponentsRepo>(
    loaded: ComponentsRepos<R>,
    tree: Tree,
    files: Files,
    paths: Seq<Seq<Comp>>,
    result: Map<Seq<char>, Contents>,
    i: int,
    name: Seq<char>,
    p: Seq<Comp>,
)
    requires
        loaded.sorting(tree, files, paths).wf(),
        loaded.sorting(tree, files, paths).sorted(loaded.default_mtime_clamp, result),
        files.contains_key(p),
        0 <= i < loaded.repos@.len(),
        loaded.repos@[i].priority() < 20,
        loaded.repos@[i].strong_claims(p, files[p]).len() > 0,
        forall|j: int|
            0 <= j < loaded.repos@.len() ==> ((#[trigger] loaded.repos@[j]) matches Repo::Other(
                repo,
            ) ==> repo.repo_name() != "pip"@ && !repo.repo_name().contains('/')),
        result.contains_key(name),
        result[name].files.contains_key(p),
    ensures
        !("pip/"@.is_prefix_of(name)),
{
    let given = loaded.repos@;
    reveal_strlit("pip/");
    reveal_strlit("pip");
    lemma_nothing_else(loaded, tree, files, paths, result, name, p);
    if name == "chunkah/unclaimed"@ && is_unclaimed(given, tree, p, files[p]) {
        assert(given[i].strong_claims(p, files[p]).len() == 0);
    } else {
        let (k, id) = choose|k: int, id: ComponentId| #[trigger]
            is_due(given, k, id, tree, p, files[p]) && name == given[k].repo_name() + seq!['/']
                + given[k].facts(id).name;
        assert(given[i].strong_claims(p, files[p]).len() > 0);
        assert(first_strong(given, k, p, files[p]));
        lemma_repo_is(given[k], id, tree, p, files[p]);
        if "pip/"@.is_prefix_of(name) {
            assert(name.subrange(0, 4) =~= "pip/"@);
            assert(name[0] == "pip/"@[0] && name[1] == "pip/"@[1] && name[2] == "pip/"@[2]
                && name[3] == "pip/"@[3]);
            let own = given[k].repo_name();
            assert(own.len() <= 3 ==> name[own.len() as int] == '/');
            if own.len() == 3 {
                assert(own =~= "pip"@) by {
                    assert(own[0] == name[0] && own[1] == name[1] && own[2] == name[2]);
                }
            } else if own.len() > 3 {
                assert(own[3] == name[3]);
                assert(own.contains('/'));
            }
            assert(given[k] is Pip);
            assert(given[k].priority() == 20);
            assert(given[i].priority() < given[k].priority());
        }
    }
}

/// A repo among the others is what it is by itself: it has the name, the priority, the
/// components and the claims of the repo that it holds. That of the Python distributions
/// is named `pip`, has priority 20, and claims nothing weakly.
pub proof fn lemma_repo_is<R: ComponentsRepo>(
    repo: Repo<R>,
    id: ComponentId,
    tree: Tree,
    p: Seq<Comp>,
    info: FileFacts,
)
    ensures
        repo matches Repo::Pip(own) ==> {
            &&& repo.wf() == own.wf()
            &&& repo.repo_name() == "pip"@
            &&& repo.priority() == 20
            &&& repo.has_component(id) == own.has_component(id)
            &&& repo.facts(id) == own.facts(id)
            &&& repo.strong_claims(p, info) == own.strong_claims(p, info)
            &&& repo.weak_claims(tree, p, info) == Ok::<Seq<ComponentId>, Seq<char>>(Seq::empty())
        },
        repo matches Repo::Other(own) ==> {
            &&& repo.wf() == own.wf()
            &&& repo.repo_name() == own.repo_name()
            &&& repo.priority() == own.priority()
            &&& repo.has_component(id) == own.has_component(id)
            &&& repo.facts(id) == own.facts(id)
            &&& repo.strong_claims(p, info) == own.strong_claims(p, info)
            &&& repo.weak_claims(tree, p, info) == own.weak_claims(tree, p, info)
        },
{
}

/// A sorting fails if and only if a repo fails to tell whether it weakly claims a file
/// that nobody strongly claims, while those that are asked before it do not claim it. It
/// fails with the first such file in the order of the paths, and with what the repo says.
pub proof fn lemma_when_it_fails<R: ComponentsRepo>(
    loaded: ComponentsRepos<R>,
    tree: Tree,
    files: Files,
    paths: Seq<Seq<Comp>>,
)
    requires
        loaded.sorting(tree, files, paths).wf(),
    ensures
        match loaded.sorting(tree, files, paths).failure() {
            None => forall|p: Seq<Comp>, i: int, message: Seq<char>|
                files.contains_key(p) ==> !#[trigger] is_failing(
                    loaded.repos@,
                    i,
                    tree,
                    p,
                    files[p],
                    message,
                ),
            Some((p, message)) => {
                &&& files.contains_key(p)
                &&& exists|i: int| #[trigger]
                    is_failing(loaded.repos@, i, tree, p, files[p], message)
                &&& forall|q: Seq<Comp>, i: int, other: Seq<char>|
                    files.contains_key(q) && path_map::path_before(q, p) ==> !#[trigger] is_failing(
                        loaded.repos@,
                        i,
                        tree,
                        q,
                        files[q],
                        other,
                    )
            },
        },
{
    let sorting = loaded.sorting(tree, files, paths);
    let given = loaded.repos@;
    let left = sorting.leftovers();
    let weak = sorting.weak();
    path_map::lemma_filter_order(paths, |q: Seq<Comp>| sorting.strong().left(q));
    assert forall|q: Seq<Comp>| files.contains_key(q) implies (left.contains(q)
        && #[trigger] weak.claim(q) is Err <==> exists|i: int, message: Seq<char>| #[trigger]
        is_failing(given, i, tree, q, files[q], message)) by {
        lemma_failing(given, sorting, q);
    }
    lemma_first_failure(weak, left);
    match sorting.failure() {
        None => {
            assert forall|p: Seq<Comp>, i: int, message: Seq<char>|
                files.contains_key(p) implies !#[trigger] is_failing(
                given,
                i,
                tree,
                p,
                files[p],
                message,
            ) by {
                if is_failing(given, i, tree, p, files[p], message) {
                    assert(weak.claim(p) is Err && left.contains(p));
                }
            }
        },
        Some((p, message)) => {
            assert(left.contains(p));
            assert(sorting.paths.contains(p));
            lemma_failing(given, sorting, p);
            assert forall|q: Seq<Comp>, i: int, other: Seq<char>|
                files.contains_key(q) && path_map::path_before(
                    q,
                    p,
                ) implies !#[trigger] is_failing(given, i, tree, q, files[q], other) by {
                if is_failing(given, i, tree, q, files[q], other) {
                    assert(weak.claim(q) is Err && left.contains(q));
                    let a = left.index_of(q);
                    let b = choose|b: int|
                        0 <= b < left.len() && left[b] == p && forall|c: int|
                            0 <= c < b ==> weak.claim(#[trigger] left[c]) is Ok;
                    if b < a {
                        assert(path_map::path_before(left[b], left[a]));
                    }
                    path_map::lemma_path_order(p, q);
                }
            }
        },
    }
}

proof fn lemma_first_failure<R: ComponentsRepo>(pass: repos::Pass<R>, paths: Seq<Seq<Comp>>)
    ensures
        match pass.failure(paths) {
            None => forall|q: Seq<Comp>| #[trigger] paths.contains(q) ==> pass.claim(q) is Ok,
            Some((p, message)) => {
                &&& pass.claim(p) matches Err(said)
                &&& said == message
                &&& exists|b: int|
                    0 <= b < paths.len() && paths[b] == p && forall|c: int|
                        0 <= c < b ==> pass.claim(#[trigger] paths[c]) is Ok
            },
        },
    decreases paths.len(),
{
    if paths.len() > 0 {
        let front = paths.drop_last();
        lemma_first_failure(pass, front);
        match pass.failure(front) {
            Some((p, message)) => {
                let b = choose|b: int|
                    0 <= b < front.len() && front[b] == p && forall|c: int|
                        0 <= c < b ==> pass.claim(#[trigger] front[c]) is Ok;
                assert(paths[b] == p);
                assert forall|c: int| 0 <= c < b implies pass.claim(
                    #[trigger] paths[c],
                ) is Ok by {
                    assert(front[c] == paths[c]);
                }
            },
            None => {
                assert forall|c: int| 0 <= c < front.len() implies pass.claim(
                    #[trigger] paths[c],
                ) is Ok by {
                    assert(front[c] == paths[c]);
                    assert(front.contains(front[c]));
                }
                assert(paths[paths.len() - 1] == paths.last());
                assert forall|q: Seq<Comp>| #[trigger] paths.contains(q) && pass.claim(
                    paths.last(),
                ) is Ok implies pass.claim(q) is Ok by {
                    let c = paths.index_of(q);
                    assert(paths[c] == q);
                }
            },
        }
    }
}

proof fn lemma_failing<R: ComponentsRepo>(given: Seq<R>, sorting: Sorting<R>, q: Seq<Comp>)
    requires
        sorting.wf(),
        sorting.repos == ranking::ranked(given),
        sorting.files.contains_key(q),
    ensures
        sorting.leftovers().contains(q) && sorting.weak().claim(q) is Err <==> exists|
            i: int,
            message: Seq<char>,
        | #[trigger] is_failing(given, i, sorting.tree, q, sorting.files[q], message),
        sorting.leftovers().contains(q) ==> (sorting.weak().claim(q) matches Err(message)
            ==> exists|i: int| #[trigger]
            is_failing(given, i, sorting.tree, q, sorting.files[q], message)),
{
    let info = sorting.files[q];
    let tree = sorting.tree;
    path_map::lemma_filter_order(sorting.paths, |p: Seq<Comp>| sorting.strong().left(p));
    assert(sorting.paths.contains(q));
    let order = lemma_passes(given, tree, q, info);
    assert(sorting.strong().left(q) <==> no_strong_claim(given, q, info));
    assert(sorting.leftovers().contains(q) <==> sorting.strong().left(q));
    if sorting.strong().left(q) {
        assert(sorting.weak().files[q] == info);
        let weak = sorting.weak().claim(q);
        assert(weak == repos::first_claim(sorting.repos, 0, ClaimStrength::Weak, tree, q, info));
        if let Err(message) = weak {
            let k = choose|k: int|
                0 <= k < given.len() && (#[trigger] given[order[k]]).weak_claims(tree, q, info)
                    == Err::<Seq<ComponentId>, _>(message) && no_weak_claim_before(
                    given,
                    order[k],
                    tree,
                    q,
                    info,
                );
            assert(is_failing(given, order[k], tree, q, info, message));
        }
        assert forall|i: int, message: Seq<char>| #[trigger]
            is_failing(given, i, tree, q, info, message) implies weak is Err by {
            if let Ok(Some((k, ids))) = weak {
                let o = order[k];
                assert(given[o].weak_claims(tree, q, info) is Ok);
                assert(o != i);
                assert(given[i].weak_claims(tree, q, info) is Err);
                assert(first_weak(given, o, tree, q, info));
                assert(no_weak_claim_before(given, i, tree, q, info));
            } else if let Ok(None) = weak {
                assert(given[i].weak_claims(tree, q, info) is Ok);
            }
        }
    } else {
        assert forall|i: int, message: Seq<char>|
            !#[trigger] is_failing(given, i, tree, q, info, message) by {}
    }
}

/// There is no component without files.
pub proof fn lemma_no_empty_component<R: ComponentsRepo>(
    loaded: ComponentsRepos<R>,
    tree: Tree,
    files: Files,
    paths: Seq<Seq<Comp>>,
    result: Map<Seq<char>, Contents>,
    name: Seq<char>,
)
    requires
        loaded.sorting(tree, files, paths).wf(),
        loaded.sorting(tree, files, paths).sorted(loaded.default_mtime_clamp, result),
        result.contains_key(name),
    ensures
        exists|p: Seq<Comp>| #[trigger] result[name].files.contains_key(p),
{
    let sorting = loaded.sorting(tree, files, paths);
    if sorting.has_catch_all() && name == repos::UNCLAIMED_COMPONENT@ {
        if forall|p: Seq<Comp>| !#[trigger] sorting.unclaimed().contains_key(p) {
            assert(sorting.unclaimed() =~= Map::<Seq<Comp>, FileFacts>::empty());
        }
        let p = choose|p: Seq<Comp>| #[trigger] sorting.unclaimed().contains_key(p);
        assert(result[name].files == sorting.unclaimed());
        assert(result[name].files.contains_key(p));
    } else {
        let key = choose|key: Key| #[trigger] sorting.is_component(key, name, result[name]);
        let strong = sorting.strong();
        let weak = sorting.weak();
        if exists|p: Seq<Comp>| #[trigger] sorting.leftovers().contains(p) && weak.goes_to(p, key) {
            let p = choose|p: Seq<Comp>| #[trigger]
                sorting.leftovers().contains(p) && weak.goes_to(p, key);
            path_map::lemma_filter_order(paths, |q: Seq<Comp>| strong.left(q));
            assert(sorting.paths.contains(p));
            sorting_laws::lemma_where_files_go(sorting, p, key);
            assert(result[name].files.contains_key(p));
        } else {
            let p = choose|p: Seq<Comp>| #[trigger]
                sorting.paths.contains(p) && strong.goes_to(p, key);
            assert(sorting.paths.contains(p));
            sorting_laws::lemma_where_files_go(sorting, p, key);
            assert(result[name].files.contains_key(p));
        }
    }
}

/// The detected repos that are taken over: each that there is, in the order xattr, rpm,
/// alpm, bigfiles, and nothing else.
pub proof fn lemma_present<R: ComponentsRepo>(detected: Detected<R>)
    requires
        detected.xattr is Ok,
        detected.rpm is Ok,
        detected.alpm is Ok,
    ensures
        ({
            let all = detected.present();
            let a = if detected.xattr->Ok_0 is Some { 1int } else { 0int };
            let b = if detected.rpm->Ok_0 is Some { 1int } else { 0int };
            let c = if detected.alpm->Ok_0 is Some { 1int } else { 0int };
            let d = if detected.bigfiles is Some { 1int } else { 0int };
            &&& all.len() == a + b + c + d
            &&& detected.xattr matches Ok(Some(repo)) ==> all[0] == Repo::Other(repo)
            &&& detected.rpm matches Ok(Some(repo)) ==> all[a] == Repo::Other(repo)
            &&& detected.alpm matches Ok(Some(repo)) ==> all[a + b] == Repo::Other(repo)
            &&& detected.bigfiles matches Some(repo) ==> all[a + b + c] == Repo::Other(repo)
        }),
{
}

} // verus!
