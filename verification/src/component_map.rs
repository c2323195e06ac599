//! The components that the files are sorted into, by name.
use vstd::prelude::*;

use crate::file_info::{FileFacts, FileMap};
use crate::path::Comp;
use crate::stability::Stability;
use crate::text;

verus! {

/// Files belonging to a component.
#[derive(Debug)]
pub struct Component {
    /// The maximum mtime for files in this component during the build phase.
    /// File mtimes will be clamped to this value.
    pub mtime_clamp: u64,
    /// What the probability that the component doesn't change rests on. Used by
    /// the packing algorithm.
    pub stability: Stability,
    /// The files belonging to this component, with their metadata.
    pub files: FileMap,
}

/// The view of a [`Component`].
pub struct Contents {
    pub mtime_clamp: u64,
    pub stability: Stability,
    pub files: Map<Seq<Comp>, FileFacts>,
}

impl View for Component {
    type V = Contents;

    open spec fn view(&self) -> Contents {
        Contents {
            mtime_clamp: self.mtime_clamp,
            stability: self.stability,
            files: self.files@,
        }
    }
}

impl Clone for Component {
    fn clone(&self) -> (r: Self)
        ensures
            r@ == self@,
            r.files.wf() == self.files.wf(),
    {
        Component {
            mtime_clamp: self.mtime_clamp,
            stability: self.stability,
            files: self.files.clone(),
        }
    }
}

/// A map from the names of components to the components.
#[derive(Debug)]
pub struct ComponentMap {
    entries: Vec<(String, Component)>,
}

impl View for ComponentMap {
    type V = Map<Seq<char>, Contents>;

    closed spec fn view(&self) -> Map<Seq<char>, Contents> {
        Map::new(
            |name: Seq<char>| self.names().contains(name),
            |name: Seq<char>| self.entries@[self.names().index_of(name)].1@,
        )
    }
}

impl ComponentMap {
    /// The names in the order in which the map holds them.
    pub closed spec fn names(&self) -> Seq<Seq<char>> {
        Seq::new(self.entries@.len(), |i: int| self.entries@[i].0@)
    }

    /// No name is there twice, and the files of each component are a proper map.
    pub closed spec fn wf(&self) -> bool {
        &&& self.names().no_duplicates()
        &&& forall|i: int|
            0 <= i < self.entries@.len() ==> (#[trigger] self.entries@[i]).1.files.wf()
    }

    proof fn lemma_entry(&self, i: int)
        requires
            self.wf(),
            0 <= i < self.entries@.len(),
        ensures
            self@.contains_key(self.names()[i]),
            self@[self.names()[i]] == self.entries@[i].1@,
    {
        assert(self.names().contains(self.names()[i]));
        let k = self.names().index_of(self.names()[i]);
        assert(0 <= k < self.names().len() && self.names()[k] == self.names()[i]);
    }

    /// An empty map.
    pub fn new() -> (r: Self)
        ensures
            r.wf(),
            r@ == Map::<Seq<char>, Contents>::empty(),
    {
        let r = ComponentMap { entries: Vec::new() };
        assert(r@ =~= Map::<Seq<char>, Contents>::empty());
        r
    }

    /// The number of components.
    pub fn len(&self) -> (r: usize)
        ensures
            r == self.names().len(),
    {
        self.entries.len()
    }

    /// The name of the component at place `i`.
    pub fn name_at(&self, i: usize) -> (r: &str)
        requires
            i < self.names().len(),
        ensures
            r@ == self.names()[i as int],
    {
        self.entries[i].0.as_str()
    }

    /// The component at place `i`.
    pub fn component_at(&self, i: usize) -> (r: &Component)
        requires
            self.wf(),
            i < self.names().len(),
        ensures
            r.files.wf(),
            self@.contains_key(self.names()[i as int]),
            r@ == self@[self.names()[i as int]],
    {
        proof {
            self.lemma_entry(i as int);
        }
        &self.entries[i].1
    }

    /// Where the component of a name is.
    fn find(&self, name: &str) -> (r: Option<usize>)
        ensures
            match r {
                Some(i) => i < self.names().len() && self.names()[i as int] == name@,
                None => !self.names().contains(name@),
            },
    {
        let mut i: usize = 0;
        while i < self.entries.len()
            invariant
                i <= self.entries@.len(),
                forall|j: int| 0 <= j < i ==> #[trigger] self.names()[j] != name@,
            decreases self.entries@.len() - i,
        {
            if text::same_text(self.entries[i].0.as_str(), name) {
                return Some(i);
            }
            i += 1;
        }
        None
    }

    /// The component of a name.
    pub fn get(&self, name: &str) -> (r: Option<&Component>)
        requires
            self.wf(),
        ensures
            match r {
                Some(c) => c.files.wf() && self@.contains_key(name@) && self@[name@] == c@,
                None => !self@.contains_key(name@),
            },
    {
        match self.find(name) {
            Some(i) => {
                proof {
                    self.lemma_entry(i as int);
                }
                Some(&self.entries[i].1)
            },
            None => None,
        }
    }

    /// Whether there is a component of a name.
    pub fn contains_key(&self, name: &str) -> (r: bool)
        ensures
            r == self@.contains_key(name@),
    {
        match self.find(name) {
            Some(i) => {
                assert(self.names().contains(self.names()[i as int]));
                true
            },
            None => false,
        }
    }

    /// Puts a component under a name, in place of the one that may have been there.
    pub fn insert(&mut self, name: String, component: Component)
        requires
            old(self).wf(),
            component.files.wf(),
        ensures
            final(self).wf(),
            final(self)@ == old(self)@.insert(name@, component@),
    {
        let ghost before = *self;
        let ghost n = name@;
        match self.find(name.as_str()) {
            Some(i) => {
                self.entries.set(i, (name, component));
                proof {
                    assert(self.names() =~= before.names());
                    self.lemma_entry(i as int);
                    assert forall|m: Seq<char>| self@.contains_key(m) && m != n implies self@[m]
                        == before@[m] by {
                        let k = self.names().index_of(m);
                        assert(self.entries@[k] == before.entries@[k]);
                    }
                    assert(self@ =~= before@.insert(n, component@));
                }
            },
            None => {
                self.entries.push((name, component));
                proof {
                    let last = before.entries@.len() as int;
                    assert(self.names() =~= before.names().push(n));
                    assert forall|i: int, j: int|
                        0 <= i < self.names().len() && 0 <= j < self.names().len() && i
                            != j implies self.names()[i] != self.names()[j] by {
                        if i == last {
                            assert(before.names().contains(before.names()[j]));
                        } else if j == last {
                            assert(before.names().contains(before.names()[i]));
                        }
                    }
                    self.lemma_entry(last);
                    assert forall|m: Seq<char>| self@.contains_key(m) <==> before@.insert(
                        n,
                        component@,
                    ).contains_key(m) by {
                        if self@.contains_key(m) && m != n {
                            let k = self.names().index_of(m);
                            assert(before.names()[k] == m);
                        }
                        if before@.contains_key(m) {
                            let k = before.names().index_of(m);
                            assert(self.names()[k] == m);
                        }
                    }
                    assert forall|m: Seq<char>| self@.contains_key(m) && m != n implies self@[m]
                        == before@[m] by {
                        let k = self.names().index_of(m);
                        assert(self.names()[k] == m && k < last);
                        assert(before.names()[k] == m);
                        before.lemma_entry(k);
                        self.lemma_entry(k);
                        assert(self.entries@[k] == before.entries@[k]);
                    }
                    assert(self@ =~= before@.insert(n, component@));
                }
            },
        }
    }
}

} // verus!
