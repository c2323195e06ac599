//! The order in which repos are asked.
use vstd::prelude::*;

use crate::components::ComponentsRepo;

verus! {

/// The repos with one more among them, behind those of the same priority.
pub open spec fn rank_in<R: ComponentsRepo>(ranked: Seq<R>, repo: R) -> Seq<R>
    decreases ranked.len(),
{
    if ranked.len() == 0 || ranked.last().priority() <= repo.priority() {
        ranked.push(repo)
    } else {
        rank_in(ranked.drop_last(), repo).push(ranked.last())
    }
}

/// The repos in order of their priority. Those of the same priority stay in the
/// order in which they were.
pub open spec fn ranked<R: ComponentsRepo>(repos: Seq<R>) -> Seq<R>
    decreases repos.len(),
{
    if repos.len() == 0 {
        repos
    } else {
        rank_in(ranked(repos.drop_last()), repos.last())
    }
}

pub open spec fn by_priority<R: ComponentsRepo>(repos: Seq<R>) -> bool {
    forall|i: int, j: int|
        0 <= i <= j < repos.len() ==> (#[trigger] repos[i]).priority() <= (
        #[trigger] repos[j]).priority()
}

pub open spec fn has_priority<R: ComponentsRepo>(p: usize) -> spec_fn(R) -> bool {
    |r: R| r.priority() == p
}

proof fn lemma_rank_in_at<R: ComponentsRepo>(s: Seq<R>, repo: R, at: int)
    requires
        0 <= at <= s.len(),
        at == 0 || s[at - 1].priority() <= repo.priority(),
        forall|k: int| at <= k < s.len() ==> (#[trigger] s[k]).priority() > repo.priority(),
    ensures
        rank_in(s, repo) == s.insert(at, repo),
    decreases s.len(),
{
    if at < s.len() {
        assert(s.last() == s[s.len() - 1]);
        lemma_rank_in_at(s.drop_last(), repo, at);
        assert(s.drop_last().insert(at, repo).push(s.last()) =~= s.insert(at, repo));
    } else {
        assert(s.push(repo) =~= s.insert(at, repo));
        if s.len() > 0 {
            assert(s.last() == s[s.len() - 1]);
        }
    }
}

proof fn lemma_rank_in<R: ComponentsRepo>(s: Seq<R>, repo: R, p: usize)
    requires
        by_priority(s),
    ensures
        by_priority(rank_in(s, repo)),
        rank_in(s, repo).len() == s.len() + 1,
        forall|i: int|
            0 <= i < rank_in(s, repo).len() ==> (#[trigger] rank_in(s, repo)[i]).priority()
                <= repo.priority() || s.len() > 0 && rank_in(s, repo)[i].priority()
                <= s.last().priority(),
        rank_in(s, repo).filter(has_priority(p)) == s.push(repo).filter(has_priority(p)),
    decreases s.len(),
{
    reveal(Seq::filter);
    if s.len() == 0 || s.last().priority() <= repo.priority() {
        assert forall|i: int| 0 <= i < s.push(repo).len() implies (
        #[trigger] s.push(repo)[i]).priority() <= repo.priority() by {
            if i < s.len() {
                assert(s[i].priority() <= s[s.len() - 1].priority());
            }
        }
    } else {
        let front = s.drop_last();
        let last = s.last();
        assert(by_priority(front)) by {
            assert forall|i: int, j: int| 0 <= i <= j < front.len() implies (
            #[trigger] front[i]).priority() <= (#[trigger] front[j]).priority() by {
                assert(front[i] == s[i] && front[j] == s[j]);
            }
        }
        lemma_rank_in(front, repo, p);
        let inner = rank_in(front, repo);
        let all = inner.push(last);
        if front.len() > 0 {
            assert(s[front.len() - 1].priority() <= s[s.len() - 1].priority());
        }
        assert forall|i: int| 0 <= i < all.len() implies (#[trigger] all[i]).priority()
            <= last.priority() by {
            if i < inner.len() {
                assert(all[i] == inner[i]);
            }
        }
        assert forall|i: int, j: int| 0 <= i <= j < all.len() implies (
        #[trigger] all[i]).priority() <= (#[trigger] all[j]).priority() by {
            if j < inner.len() {
                assert(all[i] == inner[i] && all[j] == inner[j]);
            }
        }
        // the last one and the new one differ in priority
        assert(all.drop_last() =~= inner);
        assert(front.push(repo).drop_last() =~= front);
        assert(s.push(repo).drop_last() =~= s);
        let pred = has_priority::<R>(p);
        assert(all.filter(pred) == if pred(last) {
            inner.filter(pred).push(last)
        } else {
            inner.filter(pred)
        });
        assert(s.filter(pred) == if pred(last) {
            front.filter(pred).push(last)
        } else {
            front.filter(pred)
        });
    }
}

/// The order of the repos is that of their priorities, and repos of the same
/// priority keep their order; none is lost or added.
pub proof fn lemma_ranked<R: ComponentsRepo>(repos: Seq<R>, p: usize)
    ensures
        by_priority(ranked(repos)),
        ranked(repos).len() == repos.len(),
        ranked(repos).filter(has_priority(p)) == repos.filter(has_priority(p)),
    decreases repos.len(),
{
    if repos.len() > 0 {
        let front = repos.drop_last();
        lemma_ranked(front, p);
        lemma_rank_in(ranked(front), repos.last(), p);
        reveal(Seq::filter);
        assert(ranked(front).push(repos.last()).drop_last() =~= ranked(front));
    }
}

proof fn lemma_filter_has<R: ComponentsRepo>(s: Seq<R>, p: usize)
    requires
        by_priority(s),
        s.filter(has_priority(p)).len() > 0,
    ensures
        s.len() > 0,
        p <= s.last().priority(),
    decreases s.len(),
{
    reveal(Seq::filter);
    if s.len() > 0 && s.last().priority() != p {
        let front = s.drop_last();
        assert forall|i: int, j: int| 0 <= i <= j < front.len() implies (
        #[trigger] front[i]).priority() <= (#[trigger] front[j]).priority() by {
            assert(front[i] == s[i] && front[j] == s[j]);
        }
        lemma_filter_has(front, p);
        assert(s[front.len() - 1].priority() <= s[s.len() - 1].priority());
    }
}

proof fn lemma_ordered_unique<R: ComponentsRepo>(s: Seq<R>, t: Seq<R>)
    requires
        by_priority(s),
        by_priority(t),
        forall|p: usize| #[trigger] s.filter(has_priority(p)) == t.filter(has_priority(p)),
    ensures
        s == t,
    decreases s.len(),
{
    reveal(Seq::filter);
    if s.len() == 0 {
        if t.len() > 0 {
            let q = t.last().priority();
            assert(s.filter(has_priority(q)) == t.filter(has_priority(q)));
        }
        assert(s =~= t);
    } else {
        let p = s.last().priority();
        let a = s.drop_last();
        assert(s.filter(has_priority(p)) == a.filter(has_priority(p)).push(s.last()));
        assert(s.filter(has_priority(p)) == t.filter(has_priority(p)));
        lemma_filter_has(t, p);
        let q = t.last().priority();
        let b = t.drop_last();
        assert(t.filter(has_priority(q)) == b.filter(has_priority(q)).push(t.last()));
        assert(s.filter(has_priority(q)) == t.filter(has_priority(q)));
        lemma_filter_has(s, q);
        assert(a.filter(has_priority(p)).push(s.last()).last() == s.last());
        assert(b.filter(has_priority(q)).push(t.last()).last() == t.last());
        assert(s.last() == t.last());
        assert forall|r: usize| #[trigger] a.filter(has_priority(r)) == b.filter(
            has_priority(r),
        ) by {
            assert(s.filter(has_priority(r)) == t.filter(has_priority(r)));
            if r == p {
                assert(a.filter(has_priority(r)) =~= s.filter(has_priority(r)).drop_last());
                assert(b.filter(has_priority(r)) =~= t.filter(has_priority(r)).drop_last());
            }
        }
        assert forall|i: int, j: int| 0 <= i <= j < a.len() implies (
        #[trigger] a[i]).priority() <= (#[trigger] a[j]).priority() by {
            assert(a[i] == s[i] && a[j] == s[j]);
        }
        assert forall|i: int, j: int| 0 <= i <= j < b.len() implies (
        #[trigger] b[i]).priority() <= (#[trigger] b[j]).priority() by {
            assert(b[i] == t[i] && b[j] == t[j]);
        }
        lemma_ordered_unique(a, b);
        assert(s =~= a.push(s.last()));
        assert(t =~= b.push(t.last()));
    }
}

/// The order in which repos of different priorities are given makes no difference:
/// repos are ranked alike where those of each priority are given in the same order.
pub proof fn lemma_order_irrelevant<R: ComponentsRepo>(a: Seq<R>, b: Seq<R>)
    requires
        forall|p: usize| #[trigger] a.filter(has_priority(p)) == b.filter(has_priority(p)),
    ensures
        ranked(a) == ranked(b),
{
    assert forall|p: usize| #[trigger] ranked(a).filter(has_priority(p)) == ranked(b).filter(
        has_priority(p),
    ) by {
        lemma_ranked(a, p);
        lemma_ranked(b, p);
        assert(a.filter(has_priority(p)) == b.filter(has_priority(p)));
    }
    lemma_ranked(a, 0);
    lemma_ranked(b, 0);
    lemma_ordered_unique(ranked(a), ranked(b));
}

/// Whether no two repos have one priority.
pub open spec fn distinct_priorities<R: ComponentsRepo>(repos: Seq<R>) -> bool {
    forall|i: int, j: int|
        0 <= i < j < repos.len() ==> (#[trigger] repos[i]).priority() != (
        #[trigger] repos[j]).priority()
}

/// Of repos of different priorities at most one has a given priority.
proof fn lemma_only_one<R: ComponentsRepo>(repos: Seq<R>, p: usize)
    requires
        distinct_priorities(repos),
    ensures
        repos.filter(has_priority(p)).len() <= 1,
        forall|repo: R|
            #[trigger] repos.contains(repo) && repo.priority() == p ==> repos.filter(
                has_priority(p),
            ) == seq![repo],
        repos.filter(has_priority(p)).len() == 1 ==> repos.contains(
            repos.filter(has_priority(p))[0],
        ) && repos.filter(has_priority(p))[0].priority() == p,
    decreases repos.len(),
{
    reveal(Seq::filter);
    if repos.len() > 0 {
        let front = repos.drop_last();
        let last = repos.last();
        assert forall|i: int, j: int| 0 <= i < j < front.len() implies (
        #[trigger] front[i]).priority() != (#[trigger] front[j]).priority() by {
            assert(front[i] == repos[i] && front[j] == repos[j]);
        }
        lemma_only_one(front, p);
        assert(repos[repos.len() - 1] == last);
        let kept = front.filter(has_priority(p));
        if kept.len() == 1 {
            let k = front.index_of(kept[0]);
            assert(repos[k] == kept[0]);
            assert(repos[k].priority() != repos[repos.len() - 1].priority());
        }
        assert forall|repo: R|
            #[trigger] repos.contains(repo) && repo.priority() == p implies repos.filter(
            has_priority(p),
        ) == seq![repo] by {
            let k = repos.index_of(repo);
            if k < front.len() {
                assert(front[k] == repo);
                assert(front.contains(repo));
                assert(repos[k].priority() != repos[repos.len() - 1].priority());
            } else {
                assert(repo == last);
                assert(kept =~= Seq::empty());
                assert(repos.filter(has_priority(p)) =~= seq![repo]);
            }
        }
    }
}

/// Repos of different priorities are ranked alike in whatever order they are given.
pub proof fn lemma_permuted<R: ComponentsRepo>(a: Seq<R>, b: Seq<R>)
    requires
        distinct_priorities(a),
        distinct_priorities(b),
        forall|repo: R| #[trigger] a.contains(repo) <==> b.contains(repo),
    ensures
        ranked(a) == ranked(b),
{
    assert forall|p: usize| #[trigger] a.filter(has_priority(p)) == b.filter(has_priority(p)) by {
        lemma_only_one(a, p);
        lemma_only_one(b, p);
        let x = a.filter(has_priority(p));
        let y = b.filter(has_priority(p));
        if x.len() == 1 {
            assert(a.contains(x[0]));
            assert(b.contains(x[0]));
            assert(x =~= seq![x[0]]);
        } else if y.len() == 1 {
            assert(b.contains(y[0]));
            assert(a.contains(y[0]));
        } else {
            assert(x =~= y);
        }
    }
    lemma_order_irrelevant(a, b);
}

/// Whether the repo at `j` is asked before the one at `i`: its priority value is lower,
/// or the same and it is given first.
pub open spec fn goes_before<R: ComponentsRepo>(given: Seq<R>, j: int, i: int) -> bool {
    given[j].priority() < given[i].priority() || given[j].priority() == given[i].priority() && j < i
}

/// Whether `order` is the order in which the repos are asked, by their places in which
/// they are given: each place is there, and each is before those that it goes before.
pub open spec fn is_asking_order<R: ComponentsRepo>(given: Seq<R>, order: Seq<int>) -> bool {
    &&& order.len() == given.len()
    &&& forall|k: int| 0 <= k < order.len() ==> 0 <= #[trigger] order[k] < given.len()
    &&& forall|k: int, l: int|
        0 <= k < l < order.len() ==> goes_before(given, #[trigger] order[k], #[trigger] order[l])
    &&& forall|i: int| 0 <= i < given.len() ==> #[trigger] order.contains(i)
}

proof fn lemma_rank_in_place<R: ComponentsRepo>(s: Seq<R>, repo: R) -> (at: int)
    requires
        by_priority(s),
    ensures
        0 <= at <= s.len(),
        rank_in(s, repo) == s.insert(at, repo),
        forall|k: int| 0 <= k < at ==> (#[trigger] s[k]).priority() <= repo.priority(),
        forall|k: int| at <= k < s.len() ==> (#[trigger] s[k]).priority() > repo.priority(),
    decreases s.len(),
{
    if s.len() == 0 || s.last().priority() <= repo.priority() {
        assert forall|k: int| 0 <= k < s.len() implies (#[trigger] s[k]).priority()
            <= repo.priority() by {
            assert(s[k].priority() <= s[s.len() - 1].priority());
        }
        assert(s.push(repo) =~= s.insert(s.len() as int, repo));
        s.len() as int
    } else {
        let front = s.drop_last();
        assert forall|i: int, j: int| 0 <= i <= j < front.len() implies (
        #[trigger] front[i]).priority() <= (#[trigger] front[j]).priority() by {
            assert(front[i] == s[i] && front[j] == s[j]);
        }
        let at = lemma_rank_in_place(front, repo);
        assert forall|k: int| 0 <= k < at implies (#[trigger] s[k]).priority()
            <= repo.priority() by {
            assert(front[k] == s[k]);
        }
        assert forall|k: int| at <= k < s.len() implies (#[trigger] s[k]).priority()
            > repo.priority() by {
            if k < front.len() {
                assert(front[k] == s[k]);
            } else {
                assert(s[k] == s.last());
            }
        }
        assert(front.insert(at, repo).push(s.last()) =~= s.insert(at, repo));
        at
    }
}

/// The repos are asked in order of their priority values, lower ones first, and those of
/// one priority in the order in which they are given.
pub proof fn lemma_asking_order<R: ComponentsRepo>(given: Seq<R>) -> (order: Seq<int>)
    ensures
        is_asking_order(given, order),
        ranked(given).len() == given.len(),
        forall|k: int| 0 <= k < given.len() ==> #[trigger] ranked(given)[k] == given[order[k]],
    decreases given.len(),
{
    if given.len() == 0 {
        Seq::empty()
    } else {
        let front = given.drop_last();
        let n = front.len() as int;
        let repo = given.last();
        let inner = lemma_asking_order(front);
        lemma_ranked(front, 0);
        let s = ranked(front);
        let at = lemma_rank_in_place(s, repo);
        let order = inner.insert(at, n);
        assert(given[n] == repo);
        assert forall|k: int| 0 <= k < order.len() implies 0 <= #[trigger] order[k]
            < given.len() && (order[k] == n <==> k == at) by {
            if k < at {
                assert(order[k] == inner[k]);
            } else if k > at {
                assert(order[k] == inner[k - 1]);
            }
        }
        assert forall|k: int| 0 <= k < given.len() implies #[trigger] ranked(given)[k]
            == given[order[k]] by {
            if k < at {
                assert(order[k] == inner[k]);
                assert(s[k] == front[inner[k]]);
            } else if k > at {
                assert(order[k] == inner[k - 1]);
                assert(s[k - 1] == front[inner[k - 1]]);
            }
        }
        assert forall|k: int, l: int| 0 <= k < l < order.len() implies goes_before(
            given,
            #[trigger] order[k],
            #[trigger] order[l],
        ) by {
            let x = if k < at { k } else { k - 1 };
            let y = if l < at { l } else { l - 1 };
            if k != at && l != at {
                assert(order[k] == inner[x] && order[l] == inner[y]);
                assert(goes_before(front, inner[x], inner[y]));
                assert(front[inner[x]] == given[inner[x]] && front[inner[y]] == given[inner[y]]);
            } else if k == at {
                assert(order[l] == inner[y]);
                assert(s[y] == front[inner[y]] && s[y].priority() > repo.priority());
                assert(front[inner[y]] == given[inner[y]]);
            } else {
                assert(order[k] == inner[x]);
                assert(s[x] == front[inner[x]] && s[x].priority() <= repo.priority());
                assert(front[inner[x]] == given[inner[x]]);
            }
        }
        assert forall|i: int| 0 <= i < given.len() implies #[trigger] order.contains(i) by {
            if i < n {
                assert(inner.contains(i));
                let k = inner.index_of(i);
                let l = if k < at { k } else { k + 1 };
                assert(order[l] == i);
            } else {
                assert(order[at] == i);
            }
        }
        order
    }
}

/// Well-formed repos are well-formed when they are ranked.
pub proof fn lemma_ranked_all<R: ComponentsRepo>(repos: Seq<R>)
    requires
        forall|i: int| 0 <= i < repos.len() ==> (#[trigger] repos[i]).wf(),
    ensures
        forall|i: int| 0 <= i < ranked(repos).len() ==> (#[trigger] ranked(repos)[i]).wf(),
    decreases repos.len(),
{
    if repos.len() > 0 {
        let front = repos.drop_last();
        assert forall|i: int| 0 <= i < front.len() implies (#[trigger] front[i]).wf() by {
            assert(front[i] == repos[i]);
        }
        lemma_ranked_all(front);
        assert(repos.last() == repos[repos.len() - 1]);
        lemma_rank_in_all(ranked(front), repos.last());
    }
}

proof fn lemma_rank_in_all<R: ComponentsRepo>(s: Seq<R>, repo: R)
    requires
        repo.wf(),
        forall|i: int| 0 <= i < s.len() ==> (#[trigger] s[i]).wf(),
    ensures
        forall|i: int| 0 <= i < rank_in(s, repo).len() ==> (#[trigger] rank_in(s, repo)[i]).wf(),
    decreases s.len(),
{
    if s.len() > 0 && s.last().priority() > repo.priority() {
        let front = s.drop_last();
        assert forall|i: int| 0 <= i < front.len() implies (#[trigger] front[i]).wf() by {
            assert(front[i] == s[i]);
        }
        lemma_rank_in_all(front, repo);
        assert(s.last() == s[s.len() - 1]);
        let inner = rank_in(front, repo);
        assert forall|i: int| 0 <= i < inner.push(s.last()).len() implies (
        #[trigger] inner.push(s.last())[i]).wf() by {
            if i < inner.len() {
                assert(inner.push(s.last())[i] == inner[i]);
            }
        }
    } else {
        assert forall|i: int| 0 <= i < s.push(repo).len() implies (
        #[trigger] s.push(repo)[i]).wf() by {
            if i < s.len() {
                assert(s.push(repo)[i] == s[i]);
            }
        }
    }
}

/// Puts the repos in order of their priority, keeping the order of those of the
/// same priority.
pub fn sort_by_priority<R: ComponentsRepo>(repos: Vec<R>) -> (r: Vec<R>)
    requires
        forall|i: int| 0 <= i < repos@.len() ==> (#[trigger] repos@[i]).wf(),
    ensures
        r@ == ranked(repos@),
{
    let ghost given = repos@;
    let mut rest: Vec<R> = repos;
    let mut done: Vec<R> = Vec::new();
    let ghost mut n: int = 0;
    assert(given.take(0) =~= Seq::<R>::empty());
    assert(given.skip(0) =~= given);
    while rest.len() > 0
        invariant
            forall|i: int| 0 <= i < given.len() ==> (#[trigger] given[i]).wf(),
            0 <= n <= given.len(),
            rest@ == given.skip(n),
            done@ == ranked(given.take(n)),
        decreases rest@.len(),
    {
        proof {
            let front = given.take(n);
            assert forall|i: int| 0 <= i < front.len() implies (#[trigger] front[i]).wf() by {
                assert(front[i] == given[i]);
            }
            lemma_ranked_all(front);
            assert(given.take(n + 1).drop_last() =~= front);
            assert(given.take(n + 1).last() == given[n]);
            assert(given.skip(n).remove(0) =~= given.skip(n + 1));
        }
        let repo: R = rest.remove(0);
        assert(repo == given[n]);
        let priority: usize = repo.default_priority();
        let mut at: usize = done.len();
        let mut going: bool = true;
        while going && at > 0
            invariant
                at <= done@.len(),
                priority == repo.priority(),
                forall|i: int| 0 <= i < done@.len() ==> (#[trigger] done@[i]).wf(),
                forall|k: int| at <= k < done@.len() ==> (#[trigger] done@[k]).priority() > priority,
                !going ==> at > 0 && done@[at - 1].priority() <= priority,
            decreases at + if going { 1int } else { 0int },
        {
            if done[at - 1].default_priority() > priority {
                at -= 1;
            } else {
                going = false;
            }
        }
        proof {
            lemma_rank_in_at(done@, repo, at as int);
            n = n + 1;
        }
        done.insert(at, repo);
    }
    assert(given.take(n) =~= given);
    done
}

} // verus!
