//! Components and the repos that claim files for them.
use vstd::prelude::*;

use crate::file_info::{FileFacts, FileInfo};
use crate::path;
use crate::path::Comp;
use crate::rootfs::{Rootfs, Tree};
use crate::stability::Stability;

verus! {

/// Opaque identifier for a component within a repo.
#[derive(Debug, Clone, Copy, PartialEq, Eq, PartialOrd, Ord, Hash, Structural)]
pub struct ComponentId(pub usize);

/// Information about a component.
#[derive(Debug)]
pub struct ComponentInfo<'a> {
    pub name: &'a str,
    pub mtime_clamp: u64,
    pub stability: Stability,
}

/// The view of a [`ComponentInfo`].
pub struct ComponentFacts {
    pub name: Seq<char>,
    pub mtime_clamp: u64,
    pub stability: Stability,
}

impl<'a> View for ComponentInfo<'a> {
    type V = ComponentFacts;

    open spec fn view(&self) -> ComponentFacts {
        ComponentFacts {
            name: self.name@,
            mtime_clamp: self.mtime_clamp,
            stability: self.stability,
        }
    }
}

/// Why a repo could not tell whether it claims a path.
#[derive(Debug)]
pub struct RepoError {
    pub message: String,
}

/// What a repo answers when it is asked for the claims on a path.
pub type Answer = Result<Seq<ComponentId>, Seq<char>>;

/// The view of what a repo answers.
pub open spec fn answer_view(r: Result<Vec<ComponentId>, RepoError>) -> Answer {
    match r {
        Ok(ids) => Ok(ids@),
        Err(e) => Err(e.message@),
    }
}

/// A trait for any type of "repo" of components (e.g., rpm, dpkg, etc.)
///
/// Components repos are query objects that answer which components claim a path.
/// What they answer is given by functions for specifications. These have defaults, so
/// that code that is not verified can implement the trait without them; a default is
/// some fixed value of which nothing is known, the same for all repos that take it, and
/// is not what such a repo answers.
pub trait ComponentsRepo {
    /// Whether the repo is well-formed.
    open spec fn wf(&self) -> bool {
        true
    }

    /// The name of this repo type.
    open spec fn repo_name(&self) -> Seq<char> {
        arbitrary()
    }

    /// The priority of this repo.
    open spec fn priority(&self) -> usize {
        arbitrary()
    }

    /// Whether the repo has a component of this identifier.
    open spec fn has_component(&self, id: ComponentId) -> bool {
        arbitrary()
    }

    /// What is known of a component.
    open spec fn facts(&self, id: ComponentId) -> ComponentFacts {
        arbitrary()
    }

    /// The components that strongly claim a path.
    open spec fn strong_claims(&self, path: Seq<Comp>, info: FileFacts) -> Seq<ComponentId> {
        arbitrary()
    }

    /// The components that weakly claim a path.
    open spec fn weak_claims(&self, tree: Tree, path: Seq<Comp>, info: FileFacts) -> Answer {
        arbitrary()
    }

    /// Returns the name of this repo type (e.g., "rpm", "xattr").
    fn name(&self) -> (r: &'static str)
        requires
            self.wf(),
        ensures
            r@ == self.repo_name(),
    ;

    /// Returns the priority of this repo for ordering purposes.
    ///
    /// Lower values indicate higher priority. Used to determine the order in which
    /// repos are queried. Higher priority repos "win" - if they claim a path, lower
    /// priority repos are not consulted.
    fn default_priority(&self) -> (r: usize)
        requires
            self.wf(),
        ensures
            r == self.priority(),
    ;

    /// Query which components strongly claim this path.
    ///
    /// Strong path claims are authoritative claims; i.e. the system itself for
    /// example may have a database (like the rpmdb) which says that this path
    /// belongs in a specific component. Must be cheap (no I/O).
    ///
    /// Returns a list of component IDs that claim this path. For most paths, this
    /// returns 0 or 1 ID. Directories shared by multiple packages may return
    /// multiple IDs.
    fn strong_claims_for_path(&self, path: &str, file_info: &FileInfo) -> (r: Vec<ComponentId>)
        requires
            self.wf(),
        ensures
            r@ == self.strong_claims(path::components(path@), file_info@),
            forall|i: int| 0 <= i < r@.len() ==> self.has_component(#[trigger] r@[i]),
    ;

    /// Query which components weakly claim this path.
    ///
    /// Weak path claims are best-effort claims; these have lower precedence than
    /// strong claims but still generally result in a more efficient outcome than
    /// leaving paths unclaimed. They may involve calculations (e.g. hashing) and
    /// heuristics.
    fn weak_claims_for_path(&self, rootfs: &Rootfs, path: &str, file_info: &FileInfo) -> (r: Result<
        Vec<ComponentId>,
        RepoError,
    >)
        requires
            self.wf(),
            rootfs.wf(),
        ensures
            answer_view(r) == self.weak_claims(rootfs@, path::components(path@), file_info@),
            r matches Ok(ids) ==> forall|i: int|
                0 <= i < ids@.len() ==> self.has_component(#[trigger] ids@[i]),
    ;

    /// Get info about a component by ID.
    fn component_info(&self, id: ComponentId) -> (r: ComponentInfo<'_>)
        requires
            self.wf(),
            self.has_component(id),
        ensures
            r@ == self.facts(id),
    ;
}

} // verus!
