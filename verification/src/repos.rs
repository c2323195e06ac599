//! The claiming of files by repos, in order of their priority.
use vstd::prelude::*;
use vstd::string::StringExecFns;

use crate::component_map::{Component, ComponentMap, Contents};
use crate::components::{
    Answer, ComponentFacts, ComponentId, ComponentInfo, ComponentsRepo, RepoError,
};
use crate::file_info::{FileFacts, FileInfo, FileMap};
use crate::lists;
use crate::path;
use crate::path::Comp;
use crate::path_map;
use crate::path_map::PathMap;
use crate::pip;
use crate::pip::PipRepo;
use crate::ranking;
use crate::rootfs::{Rootfs, Tree};
use crate::stability::Stability;

verus! {

/// The name of the component for files not claimed by any repo.
pub const UNCLAIMED_COMPONENT: &'static str = "chunkah/unclaimed";

/// Whether to use strong or weak claims in a claiming pass.
#[derive(Debug, Clone, Copy, PartialEq, Eq, Structural)]
pub enum ClaimStrength {
    Strong,
    Weak,
}

/// What a repo answers in a pass of the given strength.
pub open spec fn answer<R: ComponentsRepo>(
    repo: R,
    strength: ClaimStrength,
    tree: Tree,
    path: Seq<Comp>,
    info: FileFacts,
) -> Answer {
    match strength {
        ClaimStrength::Strong => Ok(repo.strong_claims(path, info)),
        ClaimStrength::Weak => repo.weak_claims(tree, path, info),
    }
}

/// The first repo that claims a path, from the one at `from` on, and the
/// components for which it does. The repos before it have to answer, those behind
/// it are not asked.
pub open spec fn first_claim<R: ComponentsRepo>(
    repos: Seq<R>,
    from: int,
    strength: ClaimStrength,
    tree: Tree,
    path: Seq<Comp>,
    info: FileFacts,
) -> Result<Option<(int, Seq<ComponentId>)>, Seq<char>>
    decreases repos.len() - from,
{
    if from >= repos.len() {
        Ok(None)
    } else {
        match answer(repos[from], strength, tree, path, info) {
            Err(e) => Err(e),
            Ok(ids) => if ids.len() > 0 {
                Ok(Some((from, ids)))
            } else {
                first_claim(repos, from + 1, strength, tree, path, info)
            },
        }
    }
}

/// A component: the place of its repo, and its identifier there.
pub type Key = (int, ComponentId);

pub type Files = Map<Seq<Comp>, FileFacts>;

/// A pass over the files: the repos in their order, the strength of the claims,
/// what has been read, and the files.
pub struct Pass<R> {
    pub repos: Seq<R>,
    pub strength: ClaimStrength,
    pub tree: Tree,
    pub files: Files,
}

impl<R: ComponentsRepo> Pass<R> {
    /// The first claim on a file.
    pub open spec fn claim(self, p: Seq<Comp>) -> Result<Option<(int, Seq<ComponentId>)>, Seq<char>> {
        first_claim(self.repos, 0, self.strength, self.tree, p, self.files[p])
    }

    /// Whether a file goes to a component.
    pub open spec fn goes_to(self, p: Seq<Comp>, key: Key) -> bool {
        self.claim(p) matches Ok(Some((repo, ids))) && repo == key.0 && ids.contains(key.1)
    }

    /// Whether nobody claims a file.
    pub open spec fn left(self, p: Seq<Comp>) -> bool {
        self.claim(p) matches Ok(None)
    }

    /// The files, out of those at `done`, that nobody claims.
    pub open spec fn unclaimed(self, done: Seq<Seq<Comp>>) -> Files {
        Map::new(|p: Seq<Comp>| done.contains(p) && self.left(p), |p: Seq<Comp>| self.files[p])
    }

    /// The files, out of those at `done`, that go to a component.
    pub open spec fn share(self, done: Seq<Seq<Comp>>, key: Key) -> Files {
        Map::new(
            |p: Seq<Comp>| done.contains(p) && self.goes_to(p, key),
            |p: Seq<Comp>| self.files[p],
        )
    }

    /// The files of the components when those at `done` are added.
    pub open spec fn claims(self, before: Map<Key, Files>, done: Seq<Seq<Comp>>) -> Map<Key, Files> {
        Map::new(
            |key: Key|
                before.contains_key(key) || exists|p: Seq<Comp>|
                    #[trigger] done.contains(p) && self.goes_to(p, key),
            |key: Key| files_of(before, key).union_prefer_right(self.share(done, key)),
        )
    }

    /// The first file, in the given order, for which a repo fails to answer, and
    /// what it says.
    pub open spec fn failure(self, done: Seq<Seq<Comp>>) -> Option<(Seq<Comp>, Seq<char>)>
        decreases done.len(),
    {
        if done.len() == 0 {
            None
        } else {
            match self.failure(done.drop_last()) {
                Some(f) => Some(f),
                None => match self.claim(done.last()) {
                    Err(message) => Some((done.last(), message)),
                    Ok(_) => None,
                },
            }
        }
    }

    proof fn lemma_failure(self, done: Seq<Seq<Comp>>, i: int)
        requires
            0 <= i <= done.len(),
            self.failure(done.take(i)) is Some,
        ensures
            self.failure(done) == self.failure(done.take(i)),
        decreases done.len(),
    {
        if i == done.len() {
            assert(done.take(i) =~= done);
        } else {
            assert(done.drop_last().take(i) =~= done.take(i));
            self.lemma_failure(done.drop_last(), i);
        }
    }
}

/// The files of a component, none where it has none yet.
pub open spec fn files_of(claims: Map<Key, Files>, key: Key) -> Files {
    if claims.contains_key(key) {
        claims[key]
    } else {
        Map::empty()
    }
}

/// The files that a component of a repo has.
#[derive(Debug)]
struct Claim {
    repo: usize,
    id: ComponentId,
    files: FileMap,
}

/// The files that the components have, each component once.
#[derive(Debug)]
struct Claims {
    list: Vec<Claim>,
}

impl Claim {
    spec fn key(&self) -> Key {
        (self.repo as int, self.id)
    }
}

impl Claims {
    spec fn at(&self, key: Key) -> int {
        choose|i: int| 0 <= i < self.list@.len() && (#[trigger] self.list@[i]).key() == key
    }

    spec fn has(&self, key: Key) -> bool {
        exists|i: int| 0 <= i < self.list@.len() && (#[trigger] self.list@[i]).key() == key
    }

    spec fn map(&self) -> Map<Key, Files> {
        Map::new(|key: Key| self.has(key), |key: Key| self.list@[self.at(key)].files@)
    }

    spec fn wf(&self) -> bool {
        &&& forall|i: int| 0 <= i < self.list@.len() ==> (#[trigger] self.list@[i]).files.wf()
        &&& forall|i: int, j: int|
            0 <= i < j < self.list@.len() ==> (#[trigger] self.list@[i]).key() != (
            #[trigger] self.list@[j]).key()
    }

    proof fn lemma_at(&self, i: int)
        requires
            self.wf(),
            0 <= i < self.list@.len(),
        ensures
            self.at(self.list@[i].key()) == i,
            self.map().contains_key(self.list@[i].key()),
            self.map()[self.list@[i].key()] == self.list@[i].files@,
    {
        let key = self.list@[i].key();
        assert(self.has(key));
        let k = self.at(key);
        assert(0 <= k < self.list@.len() && self.list@[k].key() == key);
    }

    fn new() -> (r: Self)
        ensures
            r.wf(),
            r.map() == Map::<Key, Files>::empty(),
    {
        let r = Claims { list: Vec::new() };
        assert(r.map() =~= Map::<Key, Files>::empty());
        r
    }

    /// Gives a file to a component.
    fn record(&mut self, repo: usize, id: ComponentId, path: String, info: FileInfo)
        requires
            old(self).wf(),
        ensures
            final(self).wf(),
            final(self).map() == old(self).map().insert(
                (repo as int, id),
                files_of(old(self).map(), (repo as int, id)).insert(
                    path::components(path@),
                    info@,
                ),
            ),
    {
        let ghost key = (repo as int, id);
        let ghost before = *self;
        let ghost p = path::components(path@);
        let mut i: usize = 0;
        while i < self.list.len()
            invariant
                self.wf(),
                *self == before,
                before == *old(self),
                key == (repo as int, id),
                p == path::components(path@),
                i <= self.list@.len(),
                forall|j: int| 0 <= j < i ==> (#[trigger] self.list@[j]).key() != key,
            decreases self.list@.len() - i,
        {
            if self.list[i].repo == repo && self.list[i].id == id {
                let mut claim: Claim = self.list.remove(i);
                claim.files.insert(path, info);
                let ghost changed = claim;
                self.list.insert(i, claim);
                proof {
                    assert(self.list@ =~= before.list@.update(i as int, changed));
                    self.lemma_changed(before, i as int, p, info@);
                }
                return;
            }
            i += 1;
        }
        let mut files: FileMap = PathMap::new();
        files.insert(path, info);
        self.list.push(Claim { repo, id, files });
        proof {
            let n = before.list@.len() as int;
            assert(self.list@[n].key() == key);
            assert forall|a: int, b: int| 0 <= a < b < self.list@.len() implies (
            #[trigger] self.list@[a]).key() != (#[trigger] self.list@[b]).key() by {
                if b < n {
                    assert(before.list@[a].key() != before.list@[b].key());
                }
            }
            self.lemma_at(n);
            assert(!before.map().contains_key(key));
            assert forall|k: Key| self.map().contains_key(k) <==> k == key || before.map().contains_key(
                k,
            ) by {
                if self.has(k) {
                    let a = self.at(k);
                    if a < n {
                        assert(before.list@[a].key() == k);
                    }
                }
                if before.has(k) {
                    let a = before.at(k);
                    assert(self.list@[a].key() == k);
                }
            }
            assert forall|k: Key| before.map().contains_key(k) implies self.map()[k]
                == before.map()[k] by {
                let a = before.at(k);
                assert(self.list@[a] == before.list@[a]);
                self.lemma_at(a);
                before.lemma_at(a);
            }
            assert(self.map() =~= before.map().insert(
                key,
                Map::<Seq<Comp>, FileFacts>::empty().insert(p, info@),
            ));
        }
    }

    proof fn lemma_changed(&self, before: Claims, i: int, p: Seq<Comp>, facts: FileFacts)
        requires
            before.wf(),
            0 <= i < before.list@.len(),
            self.list@.len() == before.list@.len(),
            self.list@[i].key() == before.list@[i].key(),
            self.list@[i].files.wf(),
            self.list@[i].files@ == before.list@[i].files@.insert(p, facts),
            forall|j: int|
                0 <= j < before.list@.len() && j != i ==> self.list@[j] == before.list@[j],
        ensures
            self.wf(),
            self.map() == before.map().insert(
                before.list@[i].key(),
                files_of(before.map(), before.list@[i].key()).insert(p, facts),
            ),
    {
        let key = before.list@[i].key();
        assert forall|j: int| 0 <= j < self.list@.len() implies (
        #[trigger] self.list@[j]).files.wf() by {
            if j != i {
                assert(self.list@[j] == before.list@[j]);
            }
        }
        assert forall|j: int| 0 <= j < self.list@.len() implies (
        #[trigger] self.list@[j]).key() == before.list@[j].key() by {
            if j != i {
                assert(self.list@[j] == before.list@[j]);
            }
        }
        assert forall|a: int, b: int| 0 <= a < b < self.list@.len() implies (
        #[trigger] self.list@[a]).key() != (#[trigger] self.list@[b]).key() by {
            assert(before.list@[a].key() != before.list@[b].key());
        }
        self.lemma_at(i);
        before.lemma_at(i);
        assert forall|k: Key| self.map().contains_key(k) <==> before.map().contains_key(k) by {
            if self.has(k) {
                let a = self.at(k);
                assert(before.list@[a].key() == k);
            }
            if before.has(k) {
                let a = before.at(k);
                assert(self.list@[a].key() == k);
            }
        }
        assert forall|k: Key| before.map().contains_key(k) && k != key implies self.map()[k]
            == before.map()[k] by {
            let a = before.at(k);
            assert(before.list@[a].key() == k);
            assert(self.list@[a] == before.list@[a]);
            self.lemma_at(a);
            before.lemma_at(a);
        }
        assert(self.map() =~= before.map().insert(
            key,
            files_of(before.map(), key).insert(p, facts),
        ));
    }
}

/// The claims when a file is given to each of these components of a repo.
spec fn with_ids(
    claims: Map<Key, Files>,
    repo: int,
    ids: Seq<ComponentId>,
    p: Seq<Comp>,
    facts: FileFacts,
) -> Map<Key, Files>
    decreases ids.len(),
{
    if ids.len() == 0 {
        claims
    } else {
        let before = with_ids(claims, repo, ids.drop_last(), p, facts);
        let key = (repo, ids.last());
        before.insert(key, files_of(before, key).insert(p, facts))
    }
}

proof fn lemma_with_ids(
    claims: Map<Key, Files>,
    repo: int,
    ids: Seq<ComponentId>,
    p: Seq<Comp>,
    facts: FileFacts,
    key: Key,
)
    ensures
        with_ids(claims, repo, ids, p, facts).contains_key(key) == (claims.contains_key(key)
            || key.0 == repo && ids.contains(key.1)),
        files_of(with_ids(claims, repo, ids, p, facts), key) == if key.0 == repo && ids.contains(
            key.1,
        ) {
            files_of(claims, key).insert(p, facts)
        } else {
            files_of(claims, key)
        },
    decreases ids.len(),
{
    if ids.len() > 0 {
        let front = ids.drop_last();
        lemma_with_ids(claims, repo, front, p, facts, key);
        assert(ids =~= front.push(ids.last()));
        if front.contains(key.1) {
            let i = front.index_of(key.1);
            assert(ids[i] == key.1);
        }
        if ids.contains(key.1) && ids.last() != key.1 {
            let i = ids.index_of(key.1);
            assert(front[i] == key.1);
        }
        if ids.last() == key.1 {
            assert(ids[ids.len() - 1] == key.1);
        }
        assert(files_of(claims, key).insert(p, facts).insert(p, facts) =~= files_of(
            claims,
            key,
        ).insert(p, facts));
    }
}

impl<R: ComponentsRepo> Pass<R> {
    proof fn lemma_claimed(
        self,
        before: Map<Key, Files>,
        done: Seq<Seq<Comp>>,
        p: Seq<Comp>,
        repo: int,
        ids: Seq<ComponentId>,
    )
        requires
            self.claim(p) == Ok::<Option<(int, Seq<ComponentId>)>, Seq<char>>(Some((repo, ids))),
        ensures
            self.claims(before, done.push(p)) == with_ids(
                self.claims(before, done),
                repo,
                ids,
                p,
                self.files[p],
            ),
            self.unclaimed(done.push(p)) == self.unclaimed(done),
    {
        let next = done.push(p);
        let old_claims = self.claims(before, done);
        let new_claims = self.claims(before, next);
        let built = with_ids(old_claims, repo, ids, p, self.files[p]);
        lists::lemma_push_contains(done, p);
        assert forall|key: Key| new_claims.contains_key(key) == built.contains_key(key) by {
            lemma_with_ids(old_claims, repo, ids, p, self.files[p], key);
            if self.goes_to(p, key) {
                assert(next.contains(p));
            }
            if exists|q: Seq<Comp>| #[trigger] done.contains(q) && self.goes_to(q, key) {
                let q = choose|q: Seq<Comp>| #[trigger] done.contains(q) && self.goes_to(q, key);
                assert(next.contains(q));
            }
            if exists|q: Seq<Comp>| #[trigger] next.contains(q) && self.goes_to(q, key) {
                let q = choose|q: Seq<Comp>| #[trigger] next.contains(q) && self.goes_to(q, key);
                assert(q == p || done.contains(q));
            }
        }
        assert forall|key: Key| new_claims.contains_key(key) implies new_claims[key]
            == built[key] by {
            lemma_with_ids(old_claims, repo, ids, p, self.files[p], key);
            self.lemma_claims_files(before, done, key);
            assert(new_claims[key] =~= files_of(built, key));
        }
        assert(new_claims =~= built);
        assert(self.unclaimed(next) =~= self.unclaimed(done));
    }

    /// The files of a component are those that it had and those that go to it.
    proof fn lemma_claims_files(self, before: Map<Key, Files>, done: Seq<Seq<Comp>>, key: Key)
        ensures
            files_of(self.claims(before, done), key) == files_of(before, key).union_prefer_right(
                self.share(done, key),
            ),
    {
        if !self.claims(before, done).contains_key(key) {
            assert(files_of(before, key).union_prefer_right(self.share(done, key)) =~= Map::<
                Seq<Comp>,
                FileFacts,
            >::empty());
        }
    }

    proof fn lemma_unclaimed(self, before: Map<Key, Files>, done: Seq<Seq<Comp>>, p: Seq<Comp>)
        requires
            self.left(p),
        ensures
            self.claims(before, done.push(p)) == self.claims(before, done),
            self.unclaimed(done.push(p)) == self.unclaimed(done).insert(p, self.files[p]),
    {
        let next = done.push(p);
        lists::lemma_push_contains(done, p);
        assert forall|key: Key|
            self.claims(before, next).contains_key(key) == self.claims(before, done).contains_key(
                key,
            ) by {
            if exists|q: Seq<Comp>| #[trigger] done.contains(q) && self.goes_to(q, key) {
                let q = choose|q: Seq<Comp>| #[trigger] done.contains(q) && self.goes_to(q, key);
                assert(next.contains(q));
            }
            if exists|q: Seq<Comp>| #[trigger] next.contains(q) && self.goes_to(q, key) {
                let q = choose|q: Seq<Comp>| #[trigger] next.contains(q) && self.goes_to(q, key);
                assert(q == p || done.contains(q));
            }
        }
        assert forall|key: Key| self.claims(before, next).contains_key(key) implies self.claims(
            before,
            next,
        )[key] == self.claims(before, done)[key] by {
            assert(self.share(next, key) =~= self.share(done, key));
        }
        assert(self.claims(before, next) =~= self.claims(before, done));
        assert(self.unclaimed(next) =~= self.unclaimed(done).insert(p, self.files[p]));
    }
}

/// A pass of claims failed, for the given path.
#[derive(Debug)]
pub struct ClaimError {
    pub strength: ClaimStrength,
    pub path: String,
    pub cause: RepoError,
}

/// Whether all the components are known to their repos.
spec fn all_known<R: ComponentsRepo>(claims: Map<Key, Files>, repos: Seq<R>) -> bool {
    forall|key: Key| #[trigger]
        claims.contains_key(key) ==> 0 <= key.0 < repos.len() && repos[key.0].has_component(key.1)
}

/// Asks the repos in turn until one of them claims the path.
fn ask_in_turn<R: ComponentsRepo>(
    rootfs: &Rootfs,
    repos: &Vec<R>,
    path: &str,
    file_info: &FileInfo,
    strength: ClaimStrength,
) -> (r: Result<Option<(usize, Vec<ComponentId>)>, RepoError>)
    requires
        rootfs.wf(),
        forall|i: int| 0 <= i < repos@.len() ==> (#[trigger] repos@[i]).wf(),
    ensures
        match r {
            Ok(None) => first_claim(
                repos@,
                0,
                strength,
                rootfs@,
                path::components(path@),
                file_info@,
            ) == Ok::<Option<(int, Seq<ComponentId>)>, Seq<char>>(None),
            Ok(Some((repo, ids))) => {
                &&& repo < repos@.len()
                &&& forall|i: int|
                    0 <= i < ids@.len() ==> repos@[repo as int].has_component(#[trigger] ids@[i])
                &&& first_claim(
                    repos@,
                    0,
                    strength,
                    rootfs@,
                    path::components(path@),
                    file_info@,
                ) == Ok::<Option<(int, Seq<ComponentId>)>, Seq<char>>(Some((repo as int, ids@)))
            },
            Err(e) => first_claim(
                repos@,
                0,
                strength,
                rootfs@,
                path::components(path@),
                file_info@,
            ) == Err::<Option<(int, Seq<ComponentId>)>, Seq<char>>(e.message@),
        },
{
    let mut i: usize = 0;
    while i < repos.len()
        invariant
            rootfs.wf(),
            forall|k: int| 0 <= k < repos@.len() ==> (#[trigger] repos@[k]).wf(),
            i <= repos@.len(),
            first_claim(repos@, 0, strength, rootfs@, path::components(path@), file_info@)
                == first_claim(
                repos@,
                i as int,
                strength,
                rootfs@,
                path::components(path@),
                file_info@,
            ),
        decreases repos@.len() - i,
    {
        let ids: Vec<ComponentId> = match strength {
            ClaimStrength::Strong => repos[i].strong_claims_for_path(path, file_info),
            ClaimStrength::Weak => match repos[i].weak_claims_for_path(rootfs, path, file_info) {
                Ok(ids) => ids,
                Err(e) => {
                    return Err(e);
                },
            },
        };
        if ids.len() > 0 {
            return Ok(Some((i, ids)));
        }
        i += 1;
    }
    Ok(None)
}

/// Runs a claiming pass over all files, consulting each repo in priority order.
/// Returns the files that were not claimed.
fn claim_pass<R: ComponentsRepo>(
    rootfs: &Rootfs,
    repos: &Vec<R>,
    files: &FileMap,
    claims: &mut Claims,
    strength: ClaimStrength,
) -> (r: Result<FileMap, ClaimError>)
    requires
        rootfs.wf(),
        files.wf(),
        old(claims).wf(),
        all_known(old(claims).map(), repos@),
        forall|i: int| 0 <= i < repos@.len() ==> (#[trigger] repos@[i]).wf(),
    ensures
        ({
            let pass = Pass { repos: repos@, strength, tree: rootfs@, files: files@ };
            match r {
                Ok(unclaimed) => {
                    &&& unclaimed.wf()
                    &&& final(claims).wf()
                    &&& all_known(final(claims).map(), repos@)
                    &&& pass.failure(files.keys()) is None
                    &&& unclaimed@ == pass.unclaimed(files.keys())
                    &&& final(claims).map() == pass.claims(old(claims).map(), files.keys())
                },
                Err(e) => {
                    &&& e.strength == strength
                    &&& pass.failure(files.keys()) == Some(
                        (path::components(e.path@), e.cause.message@),
                    )
                },
            }
        }),
{
    let ghost pass = Pass { repos: repos@, strength, tree: rootfs@, files: files@ };
    let ghost keys = files.keys();
    let ghost before = claims.map();
    let mut unclaimed: FileMap = PathMap::new();
    let mut i: usize = 0;
    proof {
        assert(keys.take(0) =~= Seq::<Seq<Comp>>::empty());
        assert(unclaimed@ =~= pass.unclaimed(keys.take(0)));
        assert forall|key: Key| before.contains_key(key) implies #[trigger] pass.claims(
            before,
            keys.take(0),
        )[key] == before[key] by {
            assert(before[key].union_prefer_right(pass.share(keys.take(0), key)) =~= before[key]);
        }
        assert(before =~= pass.claims(before, keys.take(0)));
    }
    while i < files.len()
        invariant
            rootfs.wf(),
            files.wf(),
            claims.wf(),
            unclaimed.wf(),
            forall|k: int| 0 <= k < repos@.len() ==> (#[trigger] repos@[k]).wf(),
            pass == (Pass { repos: repos@, strength, tree: rootfs@, files: files@ }),
            keys == files.keys(),
            before == old(claims).map(),
            i <= keys.len(),
            all_known(claims.map(), repos@),
            pass.failure(keys.take(i as int)) is None,
            unclaimed@ == pass.unclaimed(keys.take(i as int)),
            claims.map() == pass.claims(before, keys.take(i as int)),
        decreases keys.len() - i,
    {
        let ghost done = keys.take(i as int);
        let ghost p = keys[i as int];
        proof {
            assert(keys.take(i + 1) =~= done.push(p));
            assert(done.push(p).drop_last() =~= done);
        }
        let path: &str = files.path_at(i);
        let file_info: &FileInfo = files.value_at(i);
        match ask_in_turn(rootfs, repos, path, file_info, strength) {
            Err(cause) => {
                proof {
                    pass.lemma_failure(keys, i + 1);
                }
                return Err(ClaimError { strength, path: path.to_owned(), cause });
            },
            Ok(None) => {
                proof {
                    pass.lemma_unclaimed(before, done, p);
                }
                unclaimed.insert(path.to_owned(), file_info.clone());
            },
            Ok(Some((repo, ids))) => {
                let ghost start = claims.map();
                let mut j: usize = 0;
                assert(ids@.take(0) =~= Seq::<ComponentId>::empty());
                while j < ids.len()
                    invariant
                        claims.wf(),
                        repo < repos@.len(),
                        forall|k: int|
                            0 <= k < ids@.len() ==> repos@[repo as int].has_component(
                                #[trigger] ids@[k],
                            ),
                        path::components(path@) == p,
                        all_known(claims.map(), repos@),
                        j <= ids@.len(),
                        claims.map() == with_ids(
                            start,
                            repo as int,
                            ids@.take(j as int),
                            p,
                            file_info@,
                        ),
                    decreases ids@.len() - j,
                {
                    assert(ids@.take(j + 1).drop_last() =~= ids@.take(j as int));
                    claims.record(repo, ids[j], path.to_owned(), file_info.clone());
                    j += 1;
                }
                proof {
                    assert(ids@.take(j as int) =~= ids@);
                    pass.lemma_claimed(before, done, p, repo as int, ids@);
                }
            },
        }
        i += 1;
    }
    assert(keys.take(i as int) =~= keys);
    Ok(unclaimed)
}

// ---------------------------------------------------------------- components

/// The name of a component together with that of its repo.
pub open spec fn full_name(repo: Seq<char>, component: Seq<char>) -> Seq<char> {
    repo + seq!['/'] + component
}

fn make_full_name(repo: &str, component: &str) -> (r: String)
    ensures
        r@ == full_name(repo@, component@),
{
    let mut r: String = repo.to_owned();
    r.push('/');
    r.append(component);
    assert(r@ =~= full_name(repo@, component@));
    r
}

/// The sorting of files into components: the repos in the order in which they are
/// asked, what has been read, and the files with their paths in order.
pub struct Sorting<R> {
    pub repos: Seq<R>,
    pub tree: Tree,
    pub files: Files,
    pub paths: Seq<Seq<Comp>>,
}

impl<R: ComponentsRepo> Sorting<R> {
    /// The first pass, over all files.
    pub open spec fn strong(self) -> Pass<R> {
        Pass {
            repos: self.repos,
            strength: ClaimStrength::Strong,
            tree: self.tree,
            files: self.files,
        }
    }

    /// The second pass, over the files that the first one leaves.
    pub open spec fn weak(self) -> Pass<R> {
        Pass {
            repos: self.repos,
            strength: ClaimStrength::Weak,
            tree: self.tree,
            files: self.strong().unclaimed(self.paths),
        }
    }

    /// The files that the first pass leaves, in order.
    pub open spec fn leftovers(self) -> Seq<Seq<Comp>> {
        self.paths.filter(|p: Seq<Comp>| self.strong().left(p))
    }

    /// The file at which the second pass fails, and what the repo says.
    pub open spec fn failure(self) -> Option<(Seq<Comp>, Seq<char>)> {
        self.weak().failure(self.leftovers())
    }

    /// The files that go to each component.
    pub open spec fn claims(self) -> Map<Key, Files> {
        self.weak().claims(self.strong().claims(Map::empty(), self.paths), self.leftovers())
    }

    /// The files that go to no component.
    pub open spec fn unclaimed(self) -> Files {
        self.weak().unclaimed(self.leftovers())
    }

    /// Whether there is need for a catch-all.
    pub open spec fn has_catch_all(self) -> bool {
        self.unclaimed() != Map::<Seq<Comp>, FileFacts>::empty()
    }

    pub open spec fn name(self, key: Key) -> Seq<char> {
        full_name(self.repos[key.0].repo_name(), self.repos[key.0].facts(key.1).name)
    }

    pub open spec fn contents(self, key: Key) -> Contents {
        Contents {
            mtime_clamp: self.repos[key.0].facts(key.1).mtime_clamp,
            stability: self.repos[key.0].facts(key.1).stability,
            files: self.claims()[key],
        }
    }

    /// Whether a name is that of a component with this content.
    pub open spec fn is_component(self, key: Key, name: Seq<char>, contents: Contents) -> bool {
        self.claims().contains_key(key) && self.name(key) == name && self.contents(key) == contents
    }

    /// What the components are: those that have files, each under its full name, and
    /// the catch-all if there is need for it. Where several components have one
    /// name, one of them is there; the catch-all comes before all of them.
    pub open spec fn sorted(self, default_mtime_clamp: u64, map: Map<Seq<char>, Contents>) -> bool {
        &&& forall|key: Key| #[trigger]
            self.claims().contains_key(key) ==> map.contains_key(self.name(key))
        &&& forall|name: Seq<char>| #[trigger]
            map.contains_key(name) ==> self.has_catch_all() && name == UNCLAIMED_COMPONENT@
                || exists|key: Key| #[trigger] self.is_component(key, name, map[name])
        &&& self.has_catch_all() ==> {
            &&& map.contains_key(UNCLAIMED_COMPONENT@)
            &&& map[UNCLAIMED_COMPONENT@] == (Contents {
                mtime_clamp: default_mtime_clamp,
                stability: Stability::Unstable,
                files: self.unclaimed(),
            })
        }
    }
}

/// Strong claims are always answered.
pub proof fn lemma_strong_answers<R: ComponentsRepo>(
    repos: Seq<R>,
    from: int,
    tree: Tree,
    p: Seq<Comp>,
    info: FileFacts,
)
    requires
        0 <= from,
    ensures
        first_claim(repos, from, ClaimStrength::Strong, tree, p, info) is Ok,
    decreases repos.len() - from,
{
    if from < repos.len() {
        lemma_strong_answers(repos, from + 1, tree, p, info);
    }
}

/// The pass of the strong claims never fails.
pub proof fn lemma_strong_pass<R: ComponentsRepo>(pass: Pass<R>, paths: Seq<Seq<Comp>>)
    requires
        pass.strength == ClaimStrength::Strong,
    ensures
        pass.failure(paths) is None,
    decreases paths.len(),
{
    if paths.len() > 0 {
        lemma_strong_pass(pass, paths.drop_last());
        lemma_strong_answers(pass.repos, 0, pass.tree, paths.last(), pass.files[paths.last()]);
    }
}

/// Puts the claimed files under the names of their components.
fn build_components<R: ComponentsRepo>(repos: &Vec<R>, claims: Claims) -> (r: ComponentMap)
    requires
        claims.wf(),
        all_known(claims.map(), repos@),
        forall|i: int| 0 <= i < repos@.len() ==> (#[trigger] repos@[i]).wf(),
    ensures
        r.wf(),
        forall|key: Key| #[trigger]
            claims.map().contains_key(key) ==> r@.contains_key(key_name(repos@, key)),
        forall|name: Seq<char>| #[trigger]
            r@.contains_key(name) ==> exists|key: Key| #[trigger]
                claims.map().contains_key(key) && key_name(repos@, key) == name && r@[name]
                    == key_contents(repos@, claims.map(), key),
{
    let ghost all = claims;
    let mut rest: Vec<Claim> = claims.list;
    let mut components: ComponentMap = ComponentMap::new();
    while rest.len() > 0
        invariant
            all.wf(),
            all_known(all.map(), repos@),
            forall|i: int| 0 <= i < repos@.len() ==> (#[trigger] repos@[i]).wf(),
            components.wf(),
            rest@.len() <= all.list@.len(),
            rest@ == all.list@.take(rest@.len() as int),
            forall|i: int|
                rest@.len() <= i < all.list@.len() ==> components@.contains_key(
                    key_name(repos@, (#[trigger] all.list@[i]).key()),
                ),
            forall|name: Seq<char>| #[trigger]
                components@.contains_key(name) ==> exists|i: int|
                    rest@.len() <= i < all.list@.len() && key_name(
                        repos@,
                        (#[trigger] all.list@[i]).key(),
                    ) == name && components@[name] == key_contents(
                        repos@,
                        all.map(),
                        all.list@[i].key(),
                    ),
        decreases rest@.len(),
    {
        let ghost n = rest@.len() - 1;
        let ghost before = components@;
        match rest.pop() {
            Some(claim) => {
                let ghost key = claim.key();
                proof {
                    assert(claim == all.list@[n]);
                    all.lemma_at(n);
                }
                let repo: &R = &repos[claim.repo];
                let info: ComponentInfo = repo.component_info(claim.id);
                let name: String = make_full_name(repo.name(), info.name);
                let ghost full = name@;
                components.insert(
                    name,
                    Component {
                        mtime_clamp: info.mtime_clamp,
                        stability: info.stability,
                        files: claim.files,
                    },
                );
                proof {
                    assert(rest@ =~= all.list@.take(n));
                    assert(components@[full] == key_contents(repos@, all.map(), key));
                    assert forall|m: Seq<char>| #[trigger]
                        components@.contains_key(m) implies exists|i: int|
                        n <= i < all.list@.len() && key_name(repos@, (#[trigger] all.list@[i]).key())
                            == m && components@[m] == key_contents(
                            repos@,
                            all.map(),
                            all.list@[i].key(),
                        ) by {
                        if m == full {
                            assert(key_name(repos@, all.list@[n].key()) == m);
                        } else {
                            assert(before.contains_key(m));
                        }
                    }
                }
            },
            None => {},
        }
    }
    proof {
        assert forall|key: Key| #[trigger]
            all.map().contains_key(key) implies components@.contains_key(key_name(repos@, key)) by {
            let i = all.at(key);
            assert(all.has(key));
            assert(all.list@[i].key() == key);
        }
        assert forall|name: Seq<char>| #[trigger]
            components@.contains_key(name) implies exists|key: Key| #[trigger]
            all.map().contains_key(key) && key_name(repos@, key) == name && components@[name]
                == key_contents(repos@, all.map(), key) by {
            let i = choose|i: int|
                0 <= i < all.list@.len() && key_name(repos@, (#[trigger] all.list@[i]).key())
                    == name && components@[name] == key_contents(
                    repos@,
                    all.map(),
                    all.list@[i].key(),
                );
            all.lemma_at(i);
        }
    }
    components
}

spec fn key_name<R: ComponentsRepo>(repos: Seq<R>, key: Key) -> Seq<char> {
    full_name(repos[key.0].repo_name(), repos[key.0].facts(key.1).name)
}

spec fn key_contents<R: ComponentsRepo>(
    repos: Seq<R>,
    claims: Map<Key, Files>,
    key: Key,
) -> Contents {
    Contents {
        mtime_clamp: repos[key.0].facts(key.1).mtime_clamp,
        stability: repos[key.0].facts(key.1).stability,
        files: claims[key],
    }
}

/// Claims files from repos and returns the mapping of component names to files.
pub fn sort_into_components<R: ComponentsRepo>(
    repos: Vec<R>,
    default_mtime_clamp: u64,
    rootfs: &Rootfs,
    files: FileMap,
) -> (r: Result<ComponentMap, ClaimError>)
    requires
        rootfs.wf(),
        files.wf(),
        forall|i: int| 0 <= i < repos@.len() ==> (#[trigger] repos@[i]).wf(),
    ensures
        ({
            let sorting = Sorting {
                repos: ranking::ranked(repos@),
                tree: rootfs@,
                files: files@,
                paths: files.keys(),
            };
            match r {
                Ok(components) => {
                    &&& sorting.failure() is None
                    &&& components.wf()
                    &&& sorting.sorted(default_mtime_clamp, components@)
                },
                Err(e) => {
                    &&& e.strength == ClaimStrength::Weak
                    &&& sorting.failure() == Some((path::components(e.path@), e.cause.message@))
                },
            }
        }),
{
    proof {
        ranking::lemma_ranked_all(repos@);
    }
    let repos: Vec<R> = ranking::sort_by_priority(repos);
    let ghost sorting = Sorting {
        repos: repos@,
        tree: rootfs@,
        files: files@,
        paths: files.keys(),
    };
    let mut claims: Claims = Claims::new();
    let unclaimed: FileMap = match claim_pass(
        rootfs,
        &repos,
        &files,
        &mut claims,
        ClaimStrength::Strong,
    ) {
        Ok(unclaimed) => unclaimed,
        Err(e) => {
            proof {
                lemma_strong_pass(sorting.strong(), files.keys());
            }
            return Err(e);
        },
    };
    proof {
        let strong = sorting.strong();
        let keep = |p: Seq<Comp>| strong.left(p);
        files.lemma_keys();
        unclaimed.lemma_keys();
        path_map::lemma_filter_order(files.keys(), keep);
        assert forall|p: Seq<Comp>| unclaimed.keys().contains(p) <==> sorting.leftovers().contains(
            p,
        ) by {
            assert(unclaimed@.contains_key(p) <==> unclaimed.keys().contains(p));
            assert(files.keys().filter(keep).contains(p) <==> files.keys().contains(p) && keep(p));
        }
        path_map::lemma_order_unique(unclaimed.keys(), sorting.leftovers());
    }
    let unclaimed: FileMap = match claim_pass(
        rootfs,
        &repos,
        &unclaimed,
        &mut claims,
        ClaimStrength::Weak,
    ) {
        Ok(unclaimed) => unclaimed,
        Err(e) => {
            return Err(e);
        },
    };
    assert(claims.map() == sorting.claims());
    let mut components: ComponentMap = build_components(&repos, claims);
    let ghost built = components@;
    proof {
        assert forall|name: Seq<char>| #[trigger]
            built.contains_key(name) implies exists|key: Key| #[trigger]
            sorting.is_component(key, name, built[name]) by {
            let key = choose|key: Key| #[trigger]
                sorting.claims().contains_key(key) && key_name(repos@, key) == name && built[name]
                    == key_contents(repos@, sorting.claims(), key);
            assert(sorting.is_component(key, name, built[name]));
        }
    }
    if !unclaimed.is_empty() {
        components.insert(
            UNCLAIMED_COMPONENT.to_owned(),
            Component {
                mtime_clamp: default_mtime_clamp,
                stability: Stability::Unstable,
                files: unclaimed,
            },
        );
        proof {
            assert forall|name: Seq<char>| #[trigger]
                components@.contains_key(name) && name != UNCLAIMED_COMPONENT@ implies exists|
                key: Key,
            | #[trigger] sorting.is_component(key, name, components@[name]) by {
                assert(built.contains_key(name));
                assert(components@[name] == built[name]);
            }
        }
    }
    Ok(components)
}

// --------------------------------------------------------------------- repos

/// A repo of any kind: the one of the Python distributions, or another.
#[derive(Debug)]
pub enum Repo<R> {
    Pip(PipRepo),
    Other(R),
}

impl<R: ComponentsRepo> ComponentsRepo for Repo<R> {
    open spec fn wf(&self) -> bool {
        match self {
            Repo::Pip(repo) => repo.wf(),
            Repo::Other(repo) => repo.wf(),
        }
    }

    open spec fn repo_name(&self) -> Seq<char> {
        match self {
            Repo::Pip(repo) => repo.repo_name(),
            Repo::Other(repo) => repo.repo_name(),
        }
    }

    open spec fn priority(&self) -> usize {
        match self {
            Repo::Pip(repo) => repo.priority(),
            Repo::Other(repo) => repo.priority(),
        }
    }

    open spec fn has_component(&self, id: ComponentId) -> bool {
        match self {
            Repo::Pip(repo) => repo.has_component(id),
            Repo::Other(repo) => repo.has_component(id),
        }
    }

    open spec fn facts(&self, id: ComponentId) -> ComponentFacts {
        match self {
            Repo::Pip(repo) => repo.facts(id),
            Repo::Other(repo) => repo.facts(id),
        }
    }

    open spec fn strong_claims(&self, path: Seq<Comp>, info: FileFacts) -> Seq<ComponentId> {
        match self {
            Repo::Pip(repo) => repo.strong_claims(path, info),
            Repo::Other(repo) => repo.strong_claims(path, info),
        }
    }

    open spec fn weak_claims(&self, tree: Tree, path: Seq<Comp>, info: FileFacts) -> Answer {
        match self {
            Repo::Pip(repo) => repo.weak_claims(tree, path, info),
            Repo::Other(repo) => repo.weak_claims(tree, path, info),
        }
    }

    fn name(&self) -> (r: &'static str) {
        match self {
            Repo::Pip(repo) => repo.name(),
            Repo::Other(repo) => repo.name(),
        }
    }

    fn default_priority(&self) -> (r: usize) {
        match self {
            Repo::Pip(repo) => repo.default_priority(),
            Repo::Other(repo) => repo.default_priority(),
        }
    }

    fn strong_claims_for_path(&self, path: &str, file_info: &FileInfo) -> (r: Vec<ComponentId>) {
        match self {
            Repo::Pip(repo) => repo.strong_claims_for_path(path, file_info),
            Repo::Other(repo) => repo.strong_claims_for_path(path, file_info),
        }
    }

    fn weak_claims_for_path(&self, rootfs: &Rootfs, path: &str, file_info: &FileInfo) -> (r: Result<
        Vec<ComponentId>,
        RepoError,
    >) {
        match self {
            Repo::Pip(repo) => repo.weak_claims_for_path(rootfs, path, file_info),
            Repo::Other(repo) => repo.weak_claims_for_path(rootfs, path, file_info),
        }
    }

    fn component_info(&self, id: ComponentId) -> (r: ComponentInfo<'_>) {
        match self {
            Repo::Pip(repo) => repo.component_info(id),
            Repo::Other(repo) => repo.component_info(id),
        }
    }
}

/// Which repo could not be loaded, and why.
#[derive(Debug)]
pub enum LoadReposError {
    Xattr(RepoError),
    Rpm(RepoError),
    Alpm(RepoError),
    Pip(pip::LoadError),
}

/// What came of loading the repos that are not read from the files alone.
#[derive(Debug)]
pub struct Detected<R> {
    pub xattr: Result<Option<R>, RepoError>,
    pub rpm: Result<Option<R>, RepoError>,
    pub alpm: Result<Option<R>, RepoError>,
    pub bigfiles: Option<R>,
}

impl<R: ComponentsRepo> Detected<R> {
    /// Whether the repos that have been loaded are well-formed.
    pub open spec fn wf(&self) -> bool {
        &&& self.xattr matches Ok(Some(repo)) ==> repo.wf()
        &&& self.rpm matches Ok(Some(repo)) ==> repo.wf()
        &&& self.alpm matches Ok(Some(repo)) ==> repo.wf()
        &&& self.bigfiles matches Some(repo) ==> repo.wf()
    }

    /// The repos that there are, in the order in which they are looked for.
    pub open spec fn present(&self) -> Seq<Repo<R>> {
        found(self.xattr->Ok_0) + found(self.rpm->Ok_0) + found(self.alpm->Ok_0) + found(
            self.bigfiles,
        )
    }
}

/// A repo, if there is one.
pub open spec fn found<R>(repo: Option<R>) -> Seq<Repo<R>> {
    match repo {
        Some(repo) => seq![Repo::Other(repo)],
        None => Seq::empty(),
    }
}

/// The detected repos are among those that begin with them.
proof fn lemma_found_are_there<R: ComponentsRepo>(detected: Detected<R>, repos: Seq<Repo<R>>)
    requires
        detected.present().is_prefix_of(repos),
    ensures
        detected.xattr matches Ok(Some(repo)) ==> repos.contains(Repo::Other(repo)),
        detected.rpm matches Ok(Some(repo)) ==> repos.contains(Repo::Other(repo)),
        detected.alpm matches Ok(Some(repo)) ==> repos.contains(Repo::Other(repo)),
        detected.bigfiles matches Some(repo) ==> repos.contains(Repo::Other(repo)),
{
    let a = found(detected.xattr->Ok_0);
    let b = found(detected.rpm->Ok_0);
    let c = found(detected.alpm->Ok_0);
    let all = detected.present();
    assert forall|k: int| 0 <= k < all.len() implies repos.contains(#[trigger] all[k]) by {
        assert(repos.subrange(0, all.len() as int)[k] == repos[k]);
    }
    if let Ok(Some(repo)) = detected.xattr {
        assert(all[0] == Repo::Other(repo));
    }
    if let Ok(Some(repo)) = detected.rpm {
        assert(all[a.len() as int] == Repo::Other(repo));
    }
    if let Ok(Some(repo)) = detected.alpm {
        assert(all[(a.len() + b.len()) as int] == Repo::Other(repo));
    }
    if let Some(repo) = detected.bigfiles {
        assert(all[(a.len() + b.len() + c.len()) as int] == Repo::Other(repo));
    }
}

/// Loaded component repos along with the default mtime to use.
#[derive(Debug)]
pub struct ComponentsRepos<R> {
    pub repos: Vec<Repo<R>>,
    pub default_mtime_clamp: u64,
}

impl<R: ComponentsRepo> ComponentsRepos<R> {
    pub open spec fn wf(&self) -> bool {
        forall|i: int| 0 <= i < self.repos@.len() ==> (#[trigger] self.repos@[i]).wf()
    }

    /// The sorting of files by these repos.
    pub open spec fn sorting(
        &self,
        tree: Tree,
        files: Files,
        paths: Seq<Seq<Comp>>,
    ) -> Sorting<Repo<R>> {
        Sorting { repos: ranking::ranked(self.repos@), tree, files, paths }
    }

    /// The detected repos that there are, or why the first that could not be loaded could
    /// not.
    fn collect_detected(detected: Detected<R>) -> (r: Result<
        Vec<Repo<R>>,
        LoadReposError,
    >)
        requires
            detected.wf(),
        ensures
            match r {
                Ok(repos) => {
                    &&& detected.xattr is Ok && detected.rpm is Ok && detected.alpm is Ok
                    &&& repos@ == detected.present()
                    &&& forall|i: int| 0 <= i < repos@.len() ==> (#[trigger] repos@[i]).wf()
                },
                Err(LoadReposError::Xattr(e)) => detected.xattr == Err::<Option<R>, _>(e),
                Err(LoadReposError::Rpm(e)) => detected.xattr is Ok && detected.rpm == Err::<
                    Option<R>,
                    _,
                >(e),
                Err(LoadReposError::Alpm(e)) => detected.xattr is Ok && detected.rpm is Ok
                    && detected.alpm == Err::<Option<R>, _>(e),
                Err(LoadReposError::Pip(_)) => false,
            },
    {
        let mut repos: Vec<Repo<R>> = Vec::new();
        match detected.xattr {
            Ok(Some(repo)) => {
                repos.push(Repo::Other(repo));
            },
            Ok(None) => {},
            Err(e) => {
                return Err(LoadReposError::Xattr(e));
            },
        }
        match detected.rpm {
            Ok(Some(repo)) => {
                repos.push(Repo::Other(repo));
            },
            Ok(None) => {},
            Err(e) => {
                return Err(LoadReposError::Rpm(e));
            },
        }
        match detected.alpm {
            Ok(Some(repo)) => {
                repos.push(Repo::Other(repo));
            },
            Ok(None) => {},
            Err(e) => {
                return Err(LoadReposError::Alpm(e));
            },
        }
        match detected.bigfiles {
            Some(repo) => {
                repos.push(Repo::Other(repo));
            },
            None => {},
        }
        assert(repos@ =~= detected.present());
        Ok(repos)
    }

    /// Collects all component repos present in the given rootfs: those that were
    /// detected, and the one of the Python distributions, which is loaded here.
    ///
    /// The `files` map is the set of paths in the rootfs. The `default_mtime_clamp`
    /// will be used as the mtime clamp for components that don't have a reproducible
    /// clamp (e.g. xattr-claimed files, unclaimed files).
    pub fn load(
        detected: Detected<R>,
        rootfs: &Rootfs,
        files: &FileMap,
        default_mtime_clamp: u64,
    ) -> (r: Result<Self, LoadReposError>)
        requires
            detected.wf(),
            rootfs.wf(),
            files.wf(),
        ensures
            r matches Err(LoadReposError::Xattr(e)) <==> detected.xattr is Err,
            r matches Err(LoadReposError::Xattr(e)) ==> detected.xattr == Err::<Option<R>, _>(e),
            r matches Err(LoadReposError::Rpm(e)) <==> detected.xattr is Ok && detected.rpm is Err,
            r matches Err(LoadReposError::Rpm(e)) ==> detected.rpm == Err::<Option<R>, _>(e),
            r matches Err(LoadReposError::Alpm(e)) <==> detected.xattr is Ok && detected.rpm is Ok
                && detected.alpm is Err,
            r matches Err(LoadReposError::Alpm(e)) ==> detected.alpm == Err::<Option<R>, _>(e),
            r matches Ok(loaded) ==> {
                &&& detected.xattr matches Ok(Some(repo)) ==> loaded.repos@.contains(
                    Repo::Other(repo),
                )
                &&& detected.rpm matches Ok(Some(repo)) ==> loaded.repos@.contains(
                    Repo::Other(repo),
                )
                &&& detected.alpm matches Ok(Some(repo)) ==> loaded.repos@.contains(
                    Repo::Other(repo),
                )
                &&& detected.bigfiles matches Some(repo) ==> loaded.repos@.contains(
                    Repo::Other(repo),
                )
            },
            detected.xattr is Ok && detected.rpm is Ok && detected.alpm is Ok ==> match pip::loaded(
                rootfs@,
                files@,
                files.keys(),
            ) {
                Err(failure) => r matches Err(LoadReposError::Pip(e)) && e@ == failure,
                Ok(None) => {
                    &&& r matches Ok(loaded)
                    &&& loaded.wf()
                    &&& loaded.repos@ == detected.present()
                    &&& loaded.default_mtime_clamp == default_mtime_clamp
                },
                Ok(Some(dists)) => {
                    &&& r matches Ok(loaded)
                    &&& loaded.wf()
                    &&& loaded.repos@.len() == detected.present().len() + 1
                    &&& loaded.repos@.drop_last() == detected.present()
                    &&& loaded.repos@.last() matches Repo::Pip(repo)
                    &&& repo.is_of(dists, default_mtime_clamp)
                    &&& loaded.default_mtime_clamp == default_mtime_clamp
                },
            },
    {
        let mut repos: Vec<Repo<R>> = match Self::collect_detected(detected) {
            Ok(repos) => repos,
            Err(e) => {
                return Err(e);
            },
        };
        match PipRepo::load(rootfs, files, default_mtime_clamp) {
            Ok(Some(repo)) => {
                repos.push(Repo::Pip(repo));
                assert(repos@.drop_last() =~= detected.present());
            },
            Ok(None) => {},
            Err(e) => {
                return Err(LoadReposError::Pip(e));
            },
        }
        proof {
            assert(detected.present() =~= repos@.subrange(0, detected.present().len() as int));
            lemma_found_are_there(detected, repos@);
        }
        Ok(ComponentsRepos { repos, default_mtime_clamp })
    }

    /// Returns true if no repos were loaded.
    pub fn is_empty(&self) -> (r: bool)
        ensures
            r == (self.repos@.len() == 0),
    {
        self.repos.len() == 0
    }

    /// Claims files from repos and returns the mapping of component names to files.
    ///
    /// Repos are sorted by priority (lower values first) before processing. Higher
    /// priority repos "win" - if they claim a path, lower priority repos are not
    /// consulted for that path. All unclaimed paths go into a catch-all.
    pub fn into_components(self, rootfs: &Rootfs, files: FileMap) -> (r: Result<
        ComponentMap,
        ClaimError,
    >)
        requires
            self.wf(),
            rootfs.wf(),
            files.wf(),
        ensures
            match r {
                Ok(components) => {
                    &&& self.sorting(rootfs@, files@, files.keys()).failure() is None
                    &&& components.wf()
                    &&& self.sorting(rootfs@, files@, files.keys()).sorted(
                        self.default_mtime_clamp,
                        components@,
                    )
                },
                Err(e) => {
                    &&& e.strength == ClaimStrength::Weak
                    &&& self.sorting(rootfs@, files@, files.keys()).failure() == Some(
                        (path::components(e.path@), e.cause.message@),
                    )
                },
            },
    {
        sort_into_components(self.repos, self.default_mtime_clamp, rootfs, files)
    }
}

} // verus!
