//! Maps keyed by path, held in the order of the paths.
use camino::Utf8Path;
use vstd::prelude::*;

use crate::path;
use crate::path::Comp;

verus! {

/// Text order: by the code points, character by character, a proper beginning
/// first.
pub open spec fn text_before(a: Seq<char>, b: Seq<char>) -> bool
    decreases a.len(),
{
    if b.len() == 0 {
        false
    } else if a.len() == 0 {
        true
    } else if a[0] == b[0] {
        text_before(a.skip(1), b.skip(1))
    } else {
        (a[0] as int) < (b[0] as int)
    }
}

/// The place of a kind of component among the kinds.
pub open spec fn kind_rank(c: Comp) -> int {
    match c {
        Comp::Prefix(_) => 0,
        Comp::RootDir => 1,
        Comp::CurDir => 2,
        Comp::ParentDir => 3,
        Comp::Normal(_) => 4,
    }
}

/// Component order: by kind, and texts of the same kind in text order.
pub open spec fn comp_before(a: Comp, b: Comp) -> bool {
    match (a, b) {
        (Comp::Prefix(x), Comp::Prefix(y)) => text_before(x, y),
        (Comp::Normal(x), Comp::Normal(y)) => text_before(x, y),
        _ => kind_rank(a) < kind_rank(b),
    }
}

/// Path order: component by component, a proper beginning first.
pub open spec fn path_before(a: Seq<Comp>, b: Seq<Comp>) -> bool
    decreases a.len(),
{
    if b.len() == 0 {
        false
    } else if a.len() == 0 {
        true
    } else if a[0] == b[0] {
        path_before(a.skip(1), b.skip(1))
    } else {
        comp_before(a[0], b[0])
    }
}

proof fn lemma_text_order(a: Seq<char>, b: Seq<char>)
    ensures
        a == b ==> !text_before(a, b),
        a != b ==> text_before(a, b) != text_before(b, a),
    decreases a.len(),
{
    if a.len() > 0 && b.len() > 0 && a[0] == b[0] {
        lemma_text_order(a.skip(1), b.skip(1));
        if a.skip(1) == b.skip(1) {
            assert(a =~= seq![a[0]] + a.skip(1));
            assert(b =~= seq![b[0]] + b.skip(1));
        }
    } else if a.len() == 0 && b.len() == 0 {
        assert(a =~= b);
    }
}

proof fn lemma_text_order_transitive(a: Seq<char>, b: Seq<char>, c: Seq<char>)
    requires
        text_before(a, b),
        text_before(b, c),
    ensures
        text_before(a, c),
    decreases a.len(),
{
    if a.len() > 0 && a[0] == b[0] && b[0] == c[0] {
        lemma_text_order_transitive(a.skip(1), b.skip(1), c.skip(1));
    }
}

/// Path order is a strict total order: of two different paths exactly one comes
/// before the other, and no path comes before itself.
pub proof fn lemma_path_order(a: Seq<Comp>, b: Seq<Comp>)
    ensures
        a == b ==> !path_before(a, b),
        a != b ==> path_before(a, b) != path_before(b, a),
    decreases a.len(),
{
    if a.len() > 0 && b.len() > 0 {
        if a[0] == b[0] {
            lemma_path_order(a.skip(1), b.skip(1));
            if a.skip(1) == b.skip(1) {
                assert(a =~= seq![a[0]] + a.skip(1));
                assert(b =~= seq![b[0]] + b.skip(1));
            }
        } else {
            match (a[0], b[0]) {
                (Comp::Prefix(x), Comp::Prefix(y)) => lemma_text_order(x, y),
                (Comp::Normal(x), Comp::Normal(y)) => lemma_text_order(x, y),
                _ => {},
            }
        }
    } else if a.len() == 0 && b.len() == 0 {
        assert(a =~= b);
    }
}

/// Path order is transitive.
pub proof fn lemma_path_order_transitive(a: Seq<Comp>, b: Seq<Comp>, c: Seq<Comp>)
    requires
        path_before(a, b),
        path_before(b, c),
    ensures
        path_before(a, c),
    decreases a.len(),
{
    if a.len() > 0 {
        if a[0] == b[0] && b[0] == c[0] {
            lemma_path_order_transitive(a.skip(1), b.skip(1), c.skip(1));
        } else if a[0] != b[0] && b[0] != c[0] {
            match (a[0], b[0], c[0]) {
                (Comp::Prefix(x), Comp::Prefix(y), Comp::Prefix(z)) => {
                    lemma_text_order_transitive(x, y, z);
                    lemma_text_order(x, z);
                },
                (Comp::Normal(x), Comp::Normal(y), Comp::Normal(z)) => {
                    lemma_text_order_transitive(x, y, z);
                    lemma_text_order(x, z);
                },
                _ => {},
            }
        }
    }
}

proof fn lemma_text_common(s: Seq<char>, a: Seq<char>, b: Seq<char>)
    ensures
        text_before(s + a, s + b) == text_before(a, b),
    decreases s.len(),
{
    if s.len() == 0 {
        assert(s + a =~= a && s + b =~= b);
    } else {
        lemma_text_common(s.skip(1), a, b);
        assert((s + a).skip(1) =~= s.skip(1) + a);
        assert((s + b).skip(1) =~= s.skip(1) + b);
    }
}

/// What two paths begin with alike has no part in their order.
pub proof fn lemma_path_common(p: Seq<Comp>, a: Seq<Comp>, b: Seq<Comp>)
    ensures
        path_before(p + a, p + b) == path_before(a, b),
    decreases p.len(),
{
    if p.len() == 0 {
        assert(p + a =~= a && p + b =~= b);
    } else {
        lemma_path_common(p.skip(1), a, b);
        assert((p + a).skip(1) =~= p.skip(1) + a);
        assert((p + b).skip(1) =~= p.skip(1) + b);
    }
}

/// A directory comes before what is in it.
pub proof fn lemma_directory_first(p: Seq<Comp>, a: Seq<Comp>)
    requires
        a.len() > 0,
    ensures
        path_before(p, p + a),
{
    lemma_path_common(p, Seq::empty(), a);
    assert(p + Seq::<Comp>::empty() =~= p);
}

/// In a directory names are ordered by the code points of the first characters in which
/// they differ, and a name comes before one that goes on from it. What is below a name goes
/// where the name goes.
pub proof fn lemma_names_in_order(
    p: Seq<Comp>,
    s: Seq<char>,
    x: char,
    t: Seq<char>,
    y: char,
    u: Seq<char>,
    a: Seq<Comp>,
    b: Seq<Comp>,
)
    ensures
        (x as int) < (y as int) ==> path_before(
            p + (seq![Comp::Normal(s + seq![x] + t)] + a),
            p + (seq![Comp::Normal(s + seq![y] + u)] + b),
        ),
        path_before(
            p + (seq![Comp::Normal(s)] + a),
            p + (seq![Comp::Normal(s + seq![y] + u)] + b),
        ),
{
    let m = s + seq![x] + t;
    let n = s + seq![y] + u;
    let none = Seq::<char>::empty();
    lemma_text_common(s, seq![x] + t, seq![y] + u);
    lemma_text_common(s, none, seq![y] + u);
    assert(m =~= s + (seq![x] + t));
    assert(n =~= s + (seq![y] + u));
    assert(s + none =~= s);
    lemma_text_order(s, n);
    lemma_text_order(m, n);
    lemma_path_common(p, seq![Comp::Normal(m)] + a, seq![Comp::Normal(n)] + b);
    lemma_path_common(p, seq![Comp::Normal(s)] + a, seq![Comp::Normal(n)] + b);
}

/// Whether the paths are in path order, each of them once.
pub open spec fn in_path_order(paths: Seq<Seq<Comp>>) -> bool {
    forall|i: int, j: int|
        0 <= i < j < paths.len() ==> path_before(#[trigger] paths[i], #[trigger] paths[j])
}

/// There is one way to put given paths in path order.
pub proof fn lemma_order_unique(a: Seq<Seq<Comp>>, b: Seq<Seq<Comp>>)
    requires
        in_path_order(a),
        in_path_order(b),
        forall|p: Seq<Comp>| a.contains(p) <==> b.contains(p),
    ensures
        a == b,
    decreases a.len(),
{
    if a.len() == 0 {
        if b.len() > 0 {
            assert(b.contains(b[0]));
        }
        assert(a =~= b);
    } else {
        let x = a.last();
        assert(a[a.len() - 1] == x);
        assert(a.contains(x));
        assert(b.contains(x));
        let y = b.last();
        assert(b[b.len() - 1] == y);
        assert(b.contains(y));
        assert(a.contains(y));
        let i = b.index_of(x);
        let j = a.index_of(y);
        if x != y {
            assert(path_before(b[i], b[b.len() - 1]));
            assert(path_before(a[j], a[a.len() - 1]));
            lemma_path_order(x, y);
        }
        let c = a.drop_last();
        let d = b.drop_last();
        assert forall|m: int, n: int| 0 <= m < n < c.len() implies path_before(
            #[trigger] c[m],
            #[trigger] c[n],
        ) by {
            assert(c[m] == a[m] && c[n] == a[n]);
        }
        assert forall|m: int, n: int| 0 <= m < n < d.len() implies path_before(
            #[trigger] d[m],
            #[trigger] d[n],
        ) by {
            assert(d[m] == b[m] && d[n] == b[n]);
        }
        assert forall|p: Seq<Comp>| c.contains(p) <==> d.contains(p) by {
            if c.contains(p) {
                let k = c.index_of(p);
                assert(a[k] == p);
                assert(b.contains(p));
                let l = b.index_of(p);
                lemma_path_order(a[k], a[a.len() - 1]);
                assert(path_before(a[k], a[a.len() - 1]));
                assert(d[l] == p);
            }
            if d.contains(p) {
                let k = d.index_of(p);
                assert(b[k] == p);
                assert(a.contains(p));
                let l = a.index_of(p);
                lemma_path_order(b[k], b[b.len() - 1]);
                assert(path_before(b[k], b[b.len() - 1]));
                assert(c[l] == p);
            }
        }
        lemma_order_unique(c, d);
        assert(a =~= c.push(x));
        assert(b =~= d.push(y));
    }
}

/// Leaving paths out keeps the others in path order.
pub proof fn lemma_filter_order(paths: Seq<Seq<Comp>>, keep: spec_fn(Seq<Comp>) -> bool)
    requires
        in_path_order(paths),
    ensures
        in_path_order(paths.filter(keep)),
        forall|p: Seq<Comp>|
            #[trigger] paths.filter(keep).contains(p) <==> paths.contains(p) && keep(p),
    decreases paths.len(),
{
    reveal(Seq::filter);
    if paths.len() > 0 {
        let front = paths.drop_last();
        let last = paths.last();
        assert forall|m: int, n: int| 0 <= m < n < front.len() implies path_before(
            #[trigger] front[m],
            #[trigger] front[n],
        ) by {
            assert(front[m] == paths[m] && front[n] == paths[n]);
        }
        lemma_filter_order(front, keep);
        let kept = front.filter(keep);
        let all = paths.filter(keep);
        assert forall|p: Seq<Comp>| paths.contains(p) <==> front.contains(p) || p == last by {
            if paths.contains(p) {
                let i = paths.index_of(p);
                if i < front.len() {
                    assert(front[i] == p);
                }
            }
            if front.contains(p) {
                assert(paths[front.index_of(p)] == p);
            }
            assert(paths[paths.len() - 1] == last);
        }
        if keep(last) {
            assert forall|m: int, n: int| 0 <= m < n < all.len() implies path_before(
                #[trigger] all[m],
                #[trigger] all[n],
            ) by {
                assert(all[m] == kept[m]);
                if n < kept.len() {
                    assert(all[n] == kept[n]);
                } else {
                    assert(kept.contains(kept[m]));
                    assert(front.contains(kept[m]));
                    let i = front.index_of(kept[m]);
                    assert(path_before(paths[i], paths[paths.len() - 1]));
                }
            }
            assert forall|p: Seq<Comp>| #[trigger] all.contains(p) <==> kept.contains(p) || p
                == last by {
                if all.contains(p) {
                    let i = all.index_of(p);
                    if i < kept.len() {
                        assert(kept[i] == p);
                    }
                }
                if kept.contains(p) {
                    assert(all[kept.index_of(p)] == p);
                }
                assert(all[all.len() - 1] == last);
            }
        }
    }
}

/// The `<` of `Utf8Path` compares the components one by one, each by its kind and
/// then by its text.
#[verifier::external_body]
pub(crate) fn path_is_before(a: &str, b: &str) -> (r: bool)
    ensures
        r == path_before(path::components(a@), path::components(b@)),
{
    Utf8Path::new(a) < Utf8Path::new(b)
}

/// A map from paths to values, in path order.
#[derive(Debug)]
pub struct PathMap<V> {
    entries: Vec<(String, V)>,
}

impl<V: View> View for PathMap<V> {
    type V = Map<Seq<Comp>, V::V>;

    closed spec fn view(&self) -> Map<Seq<Comp>, V::V> {
        Map::new(
            |p: Seq<Comp>| self.keys().contains(p),
            |p: Seq<Comp>| self.entries@[self.keys().index_of(p)].1@,
        )
    }
}

impl<V: View + Clone> Clone for PathMap<V> {
    /// A map of the same paths, with clones of their values.
    fn clone(&self) -> (r: Self)
        ensures
            r.keys() == self.keys(),
            r.wf() == self.wf(),
            (forall|a: V, b: V| #[trigger] cloned(a, b) ==> a@ == b@) ==> r@ == self@,
    {
        let mut entries: Vec<(String, V)> = Vec::new();
        let mut i: usize = 0;
        while i < self.entries.len()
            invariant
                i <= self.entries@.len(),
                entries@.len() == i,
                forall|k: int|
                    0 <= k < i ==> (#[trigger] entries@[k]).0@ == self.entries@[k].0@ && cloned(
                        self.entries@[k].1,
                        entries@[k].1,
                    ),
            decreases self.entries@.len() - i,
        {
            let path: String = self.entries[i].0.as_str().to_owned();
            let value: V = self.entries[i].1.clone();
            entries.push((path, value));
            i += 1;
        }
        let r = PathMap { entries };
        proof {
            assert(r.keys() =~= self.keys());
            if forall|a: V, b: V| #[trigger] cloned(a, b) ==> a@ == b@ {
                assert forall|p: Seq<Comp>| self@.contains_key(p) implies r@[p] == self@[p] by {
                    let k = self.keys().index_of(p);
                    assert(self.keys()[k] == p && 0 <= k < self.keys().len());
                    assert(cloned(self.entries@[k].1, r.entries@[k].1));
                }
                assert(r@ =~= self@);
            }
        }
        r
    }
}

impl<V> PathMap<V> {
    /// The paths of the map in the order in which it holds them.
    pub closed spec fn keys(&self) -> Seq<Seq<Comp>> {
        Seq::new(self.entries@.len(), |i: int| path::components(self.entries@[i].0@))
    }

    /// The paths are in path order, so no path is there twice.
    pub closed spec fn wf(&self) -> bool {
        in_path_order(self.keys())
    }
}

impl<V: View> PathMap<V> {
    /// The order of the paths is path order, and they are the keys of the map.
    pub proof fn lemma_keys(&self)
        requires
            self.wf(),
        ensures
            self.keys().no_duplicates(),
            in_path_order(self.keys()),
            forall|p: Seq<Comp>| #[trigger] self@.contains_key(p) <==> self.keys().contains(p),
            forall|i: int| 0 <= i < self.keys().len() ==> self@.contains_key(#[trigger] self.keys()[i]),
    {
        assert forall|i: int, j: int|
            0 <= i < self.keys().len() && 0 <= j < self.keys().len() && i != j implies self.keys()[i]
            != self.keys()[j] by {
            if i < j {
                lemma_path_order(self.keys()[i], self.keys()[j]);
            } else {
                lemma_path_order(self.keys()[j], self.keys()[i]);
            }
        }
    }

    proof fn lemma_entry(&self, i: int)
        requires
            self.wf(),
            0 <= i < self.entries@.len(),
        ensures
            self@.contains_key(self.keys()[i]),
            self@[self.keys()[i]] == self.entries@[i].1@,
    {
        self.lemma_keys();
        let k = self.keys().index_of(self.keys()[i]);
        assert(self.keys().contains(self.keys()[i]));
        assert(0 <= k < self.keys().len() && self.keys()[k] == self.keys()[i]);
        assert(k == i);
    }

    /// An empty map.
    pub fn new() -> (r: Self)
        ensures
            r.wf(),
            r@ == Map::<Seq<Comp>, V::V>::empty(),
    {
        let r = PathMap { entries: Vec::new() };
        assert(r@ =~= Map::<Seq<Comp>, V::V>::empty());
        r
    }

    /// The number of paths in the map.
    pub fn len(&self) -> (r: usize)
        ensures
            r == self.keys().len(),
    {
        self.entries.len()
    }

    /// Whether the map holds no path.
    pub fn is_empty(&self) -> (r: bool)
        ensures
            r == (self@ == Map::<Seq<Comp>, V::V>::empty()),
    {
        if self.entries.len() == 0 {
            assert(self@ =~= Map::<Seq<Comp>, V::V>::empty());
            true
        } else {
            assert(self.keys().contains(self.keys()[0]));
            assert(self@.contains_key(self.keys()[0]));
            false
        }
    }

    /// The path at place `i` of the order.
    pub fn path_at(&self, i: usize) -> (r: &str)
        requires
            i < self.keys().len(),
        ensures
            path::components(r@) == self.keys()[i as int],
    {
        self.entries[i].0.as_str()
    }

    /// The value of the path at place `i` of the order.
    pub fn value_at(&self, i: usize) -> (r: &V)
        requires
            self.wf(),
            i < self.keys().len(),
        ensures
            r@ == self@[self.keys()[i as int]],
    {
        proof {
            self.lemma_entry(i as int);
        }
        &self.entries[i].1
    }

    /// Where `path` stands in the order, or would stand.
    fn find(&self, path: &str) -> (r: (bool, usize))
        requires
            self.wf(),
        ensures
            r.1 <= self.keys().len(),
            r.0 ==> r.1 < self.keys().len() && self.keys()[r.1 as int] == path::components(path@),
            !r.0 ==> {
                &&& forall|j: int|
                    0 <= j < r.1 ==> path_before(
                        #[trigger] self.keys()[j],
                        path::components(path@),
                    )
                &&& forall|j: int|
                    r.1 <= j < self.keys().len() ==> path_before(
                        path::components(path@),
                        #[trigger] self.keys()[j],
                    )
            },
    {
        let ghost p = path::components(path@);
        let mut lo: usize = 0;
        let mut hi: usize = self.entries.len();
        while lo < hi
            invariant
                self.wf(),
                p == path::components(path@),
                lo <= hi <= self.entries@.len(),
                self.keys().len() == self.entries@.len(),
                forall|j: int| 0 <= j < lo ==> path_before(#[trigger] self.keys()[j], p),
                forall|j: int|
                    hi <= j < self.keys().len() ==> path_before(p, #[trigger] self.keys()[j]),
            decreases hi - lo,
        {
            let mid: usize = lo + (hi - lo) / 2;
            let here: &str = self.entries[mid].0.as_str();
            assert(self.keys()[mid as int] == path::components(here@));
            if path::path_eq(here, path) {
                return (true, mid);
            }
            if path_is_before(here, path) {
                assert forall|j: int| 0 <= j < mid + 1 implies path_before(
                    #[trigger] self.keys()[j],
                    p,
                ) by {
                    if j < mid {
                        lemma_path_order_transitive(self.keys()[j], self.keys()[mid as int], p);
                    }
                }
                lo = mid + 1;
            } else {
                proof {
                    lemma_path_order(self.keys()[mid as int], p);
                }
                assert forall|j: int| mid <= j < self.keys().len() implies path_before(
                    p,
                    #[trigger] self.keys()[j],
                ) by {
                    if mid < j {
                        lemma_path_order_transitive(p, self.keys()[mid as int], self.keys()[j]);
                    }
                }
                hi = mid;
            }
        }
        (false, lo)
    }

    /// The value of `path`.
    pub fn get(&self, path: &str) -> (r: Option<&V>)
        requires
            self.wf(),
        ensures
            match r {
                Some(v) => self@.contains_key(path::components(path@))
                    && self@[path::components(path@)] == v@,
                None => !self@.contains_key(path::components(path@)),
            },
    {
        let (found, i): (bool, usize) = self.find(path);
        proof {
            self.lemma_keys();
        }
        if found {
            proof {
                self.lemma_entry(i as int);
            }
            Some(&self.entries[i].1)
        } else {
            proof {
                self.lemma_absent(path::components(path@), i as int);
            }
            None
        }
    }

    proof fn lemma_absent(&self, p: Seq<Comp>, i: int)
        requires
            forall|j: int| 0 <= j < i ==> path_before(#[trigger] self.keys()[j], p),
            forall|j: int| i <= j < self.keys().len() ==> path_before(p, #[trigger] self.keys()[j]),
        ensures
            !self.keys().contains(p),
    {
        if self.keys().contains(p) {
            let k = self.keys().index_of(p);
            lemma_path_order(self.keys()[k], p);
        }
    }

    /// Whether the map holds `path`.
    pub fn contains_key(&self, path: &str) -> (r: bool)
        requires
            self.wf(),
        ensures
            r == self@.contains_key(path::components(path@)),
    {
        match self.get(path) {
            Some(_) => true,
            None => false,
        }
    }

    /// Gives `path` the value `value`, in place of the one it may have had.
    pub fn insert(&mut self, path: String, value: V)
        requires
            old(self).wf(),
        ensures
            final(self).wf(),
            final(self)@ == old(self)@.insert(path::components(path@), value@),
    {
        let (found, i): (bool, usize) = self.find(path.as_str());
        let ghost p = path::components(path@);
        if found {
            let (old_path, _): (String, V) = self.entries.remove(i);
            self.entries.insert(i, (old_path, value));
            assert(self.keys() =~= old(self).keys());
            proof {
                self.lemma_keys();
                old(self).lemma_keys();
                old(self).lemma_entry(i as int);
                self.lemma_entry(i as int);
                assert forall|q: Seq<Comp>| self@.contains_key(q) && q != p implies self@[q] == old(
                    self,
                )@[q] by {
                    let k = self.keys().index_of(q);
                    assert(self.entries@[k] == old(self).entries@[k]);
                }
                assert(self@ =~= old(self)@.insert(p, value@));
            }
        } else {
            proof {
                self.lemma_absent(p, i as int);
            }
            self.entries.insert(i, (path, value));
            proof {
                let before = old(self).keys();
                assert(self.keys() =~= before.insert(i as int, p));
                assert forall|a: int, b: int| 0 <= a < b < self.entries@.len() implies path_before(
                    #[trigger] self.keys()[a],
                    #[trigger] self.keys()[b],
                ) by {
                    let x = if a < i { a } else { a - 1 };
                    let y = if b < i { b } else { b - 1 };
                    if a != i {
                        assert(self.keys()[a] == before[x]);
                    }
                    if b != i {
                        assert(self.keys()[b] == before[y]);
                    }
                }
                self.lemma_keys();
                old(self).lemma_keys();
                self.lemma_entry(i as int);
                assert forall|q: Seq<Comp>| self@.contains_key(q) <==> old(self)@.insert(
                    p,
                    value@,
                ).contains_key(q) by {
                    if self@.contains_key(q) && q != p {
                        let k = self.keys().index_of(q);
                        let x = if k < i { k } else { k - 1 };
                        assert(before[x] == q);
                    }
                    if old(self)@.contains_key(q) {
                        let x = before.index_of(q);
                        let k = if x < i { x } else { x + 1 };
                        assert(self.keys()[k] == q);
                    }
                }
                assert forall|q: Seq<Comp>| self@.contains_key(q) && q != p implies self@[q] == old(
                    self,
                )@[q] by {
                    let k = self.keys().index_of(q);
                    assert(self.keys()[k] == q);
                    let x = if k < i { k } else { k - 1 };
                    assert(before[x] == q);
                    old(self).lemma_entry(x);
                    self.lemma_entry(k);
                    assert(self.entries@[k] == old(self).entries@[x]);
                }
                assert(self@ =~= old(self)@.insert(p, value@));
            }
        }
    }
}

} // verus!
