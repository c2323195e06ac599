//! Paths as sequences of components, and the path operations of the `camino`
//! crate stated over them.
//!
//! Two paths are the same path when their components are the same: repeated and
//! trailing slashes and inner `.` components make no difference. All statements
//! are for Unix, where `/` is the one separator and there are no prefixes.
use camino::{Utf8Component, Utf8Path};
use vstd::prelude::*;

use crate::text;

verus! {

/// A component of a path.
pub enum Comp {
    Prefix(Seq<char>),
    RootDir,
    CurDir,
    ParentDir,
    Normal(Seq<char>),
}

/// A component of a path, as it is split off by [`normalize_path`].
#[derive(Debug)]
pub enum PathComponent {
    /// A Windows path prefix. Does not occur on Unix.
    Prefix(String),
    /// The root directory.
    RootDir,
    /// The current directory, `.`.
    CurDir,
    /// The parent directory, `..`.
    ParentDir,
    /// A name.
    Normal(String),
}

impl View for PathComponent {
    type V = Comp;

    open spec fn view(&self) -> Comp {
        match self {
            PathComponent::Prefix(p) => Comp::Prefix(p@),
            PathComponent::RootDir => Comp::RootDir,
            PathComponent::CurDir => Comp::CurDir,
            PathComponent::ParentDir => Comp::ParentDir,
            PathComponent::Normal(n) => Comp::Normal(n@),
        }
    }
}

/// The views of a list of components.
pub open spec fn component_views(list: Seq<PathComponent>) -> Seq<Comp> {
    list.map_values(|c: PathComponent| c@)
}

pub open spec fn is_slash() -> spec_fn(char) -> bool {
    |c: char| c == '/'
}

pub open spec fn dot() -> Seq<char> {
    seq!['.']
}

pub open spec fn dot_dot() -> Seq<char> {
    seq!['.', '.']
}

/// Whether a piece between slashes is a component wherever it stands.
pub open spec fn is_piece() -> spec_fn(Seq<char>) -> bool {
    |p: Seq<char>| p.len() > 0 && p != dot()
}

/// The component that a piece between slashes stands for.
pub open spec fn piece_component() -> spec_fn(Seq<char>) -> Comp {
    |p: Seq<char>| if p == dot_dot() { Comp::ParentDir } else { Comp::Normal(p) }
}

/// The components of a path: the root or a leading `.`, then the pieces between
/// slashes other than the empty ones and `.`.
pub open spec fn components(path: Seq<char>) -> Seq<Comp> {
    let pieces = text::split_on(path, is_slash());
    let start = if path.len() > 0 && path[0] == '/' {
        seq![Comp::RootDir]
    } else if pieces[0] == dot() {
        seq![Comp::CurDir]
    } else {
        Seq::<Comp>::empty()
    };
    start + pieces.filter(is_piece()).map_values(piece_component())
}

/// Whether `name` can be the name in a component.
pub open spec fn is_name(name: Seq<char>) -> bool {
    &&& name.len() > 0
    &&& name != dot()
    &&& name != dot_dot()
    &&& forall|j: int| 0 <= j < name.len() ==> #[trigger] name[j] != '/'
}

/// What the components of a path look like: the root and `.` only in front, no
/// prefix, and proper names.
pub open spec fn is_path(p: Seq<Comp>) -> bool {
    forall|i: int|
        0 <= i < p.len() ==> match #[trigger] p[i] {
            Comp::Prefix(_) => false,
            Comp::RootDir => i == 0,
            Comp::CurDir => i == 0,
            Comp::ParentDir => true,
            Comp::Normal(n) => is_name(n),
        }
}

pub open spec fn is_absolute(p: Seq<Comp>) -> bool {
    p.len() > 0 && p[0] is RootDir
}

pub open spec fn root() -> Seq<Comp> {
    seq![Comp::RootDir]
}

/// The path without its final component, unless that is the root.
pub open spec fn parent(p: Seq<Comp>) -> Option<Seq<Comp>> {
    if p.len() == 0 || p.last() is RootDir {
        None
    } else {
        Some(p.drop_last())
    }
}

/// The final component, where it is a name.
pub open spec fn file_name(p: Seq<Comp>) -> Option<Seq<char>> {
    if p.len() == 0 {
        None
    } else {
        match p.last() {
            Comp::Normal(n) => Some(n),
            _ => None,
        }
    }
}

/// The path `rel` taken from `base`. An absolute `rel` stands for itself, and a
/// leading `.` of `rel` adds nothing to a `base`.
pub open spec fn joined(base: Seq<Comp>, rel: Seq<Comp>) -> Seq<Comp> {
    if is_absolute(rel) || base.len() == 0 {
        rel
    } else if rel.len() > 0 && rel[0] is CurDir {
        base + rel.skip(1)
    } else {
        base + rel
    }
}

/// The components of any text look like those of a path.
pub proof fn lemma_components_path(text: Seq<char>)
    ensures
        is_path(components(text)),
{
    let pieces = text::split_on(text, is_slash());
    text::lemma_split_pieces(text, is_slash());
    let kept = pieces.filter(is_piece());
    let names = kept.map_values(piece_component());
    broadcast use vstd::seq_lib::group_filter_ensures;
    let p = components(text);
    let start = (p.len() - names.len()) as int;
    assert forall|i: int| 0 <= i < p.len() implies match #[trigger] p[i] {
        Comp::Prefix(_) => false,
        Comp::RootDir => i == 0,
        Comp::CurDir => i == 0,
        Comp::ParentDir => true,
        Comp::Normal(n) => is_name(n),
    } by {
        if i >= start {
            let piece = kept[i - start];
            assert(is_piece()(piece));
            assert(kept.contains(piece));
            pieces.lemma_filter_contains_rev(is_piece(), piece);
            let k = choose|k: int| 0 <= k < pieces.len() && pieces[k] == piece;
            assert(p[i] == piece_component()(piece));
            assert forall|j: int| 0 <= j < piece.len() implies #[trigger] piece[j] != '/' by {
                assert(!is_slash()(pieces[k][j]));
            }
        }
    }
}

/// A name is a path of one component.
pub proof fn lemma_components_name(name: Seq<char>)
    requires
        is_name(name),
    ensures
        components(name) == seq![Comp::Normal(name)],
{
    assert forall|j: int| 0 <= j < name.len() implies !is_slash()(#[trigger] name[j]) by {}
    text::lemma_split_none(name, is_slash());
    let pieces = seq![name];
    assert(pieces.drop_last() =~= Seq::<Seq<char>>::empty());
    reveal_with_fuel(Seq::filter, 2);
    assert(is_piece()(name));
    assert(pieces.filter(is_piece()) =~= seq![name]);
    assert(components(name) =~= seq![Comp::Normal(name)]);
}

/// The empty text is the empty path.
pub proof fn lemma_components_empty()
    ensures
        components(Seq::<char>::empty()) == Seq::<Comp>::empty(),
{
    let pieces = seq![Seq::<char>::empty()];
    reveal_with_fuel(Seq::filter, 2);
    assert(pieces.drop_last() =~= Seq::<Seq<char>>::empty());
    assert(pieces.filter(is_piece()) =~= Seq::<Seq<char>>::empty());
    assert(components(Seq::<char>::empty()) =~= Seq::<Comp>::empty());
}

/// The text `/` is the root.
pub proof fn lemma_components_root()
    ensures
        components("/"@) == root(),
{
    reveal_strlit("/");
    let s = seq!['/'];
    assert("/"@ =~= s);
    assert(s.drop_last() =~= Seq::<char>::empty());
    reveal_with_fuel(text::split_on, 2);
    reveal_with_fuel(Seq::filter, 3);
    let e = Seq::<char>::empty();
    assert(is_slash()('/'));
    assert(text::split_on(s, is_slash()) =~= seq![e, e]);
    assert(seq![e, e].drop_last() =~= seq![e]);
    assert(seq![e].drop_last() =~= Seq::<Seq<char>>::empty());
    assert(seq![e, e].filter(is_piece()) =~= Seq::<Seq<char>>::empty());
    assert(components(s) =~= root());
}

/// `Utf8Path::components` splits a path into its components.
#[verifier::external_body]
pub(crate) fn path_components(path: &str) -> (r: Vec<PathComponent>)
    ensures
        component_views(r@) == components(path@),
{
    Utf8Path::new(path).components().map(|c| match c {
        Utf8Component::Prefix(p) => PathComponent::Prefix(p.as_str().to_string()),
        Utf8Component::RootDir => PathComponent::RootDir,
        Utf8Component::CurDir => PathComponent::CurDir,
        Utf8Component::ParentDir => PathComponent::ParentDir,
        Utf8Component::Normal(n) => PathComponent::Normal(n.to_string()),
    }).collect()
}

/// `Utf8Path::parent` drops the final component; there is no parent of a root or
/// of the empty path.
#[verifier::external_body]
pub(crate) fn path_parent(path: &str) -> (r: Option<&str>)
    ensures
        match r {
            Some(p) => parent(components(path@)) == Some(components(p@)),
            None => parent(components(path@)) is None,
        },
{
    Utf8Path::new(path).parent().map(|p| p.as_str())
}

/// `Utf8Path::file_name` is the final component, where it is a name.
#[verifier::external_body]
pub(crate) fn path_file_name(path: &str) -> (r: Option<&str>)
    ensures
        match r {
            Some(n) => file_name(components(path@)) == Some(n@),
            None => file_name(components(path@)) is None,
        },
{
    Utf8Path::new(path).file_name()
}

/// `Utf8Path::is_absolute` tells, on Unix, whether the path starts from the root.
#[verifier::external_body]
pub(crate) fn path_is_absolute(path: &str) -> (r: bool)
    ensures
        r == is_absolute(components(path@)),
{
    Utf8Path::new(path).is_absolute()
}

/// `Utf8Path::join` adjoins `rel` to `base`; an absolute `rel` replaces `base`.
#[verifier::external_body]
pub(crate) fn path_join(base: &str, rel: &str) -> (r: String)
    ensures
        components(r@) == joined(components(base@), components(rel@)),
{
    Utf8Path::new(base).join(rel).into_string()
}

/// `Utf8Path::strip_prefix` drops the components of `base` from the front of
/// `path`, and fails where `path` does not start with them.
#[verifier::external_body]
pub(crate) fn path_strip_prefix<'a>(path: &'a str, base: &str) -> (r: Option<&'a str>)
    ensures
        match r {
            Some(p) => components(base@).is_prefix_of(components(path@)) && components(p@)
                == components(path@).skip(components(base@).len() as int),
            None => !components(base@).is_prefix_of(components(path@)),
        },
{
    Utf8Path::new(path).strip_prefix(base).ok().map(|p| p.as_str())
}

/// `Utf8Path::starts_with` tells whether the components of `base` are the first
/// ones of `path`.
#[verifier::external_body]
pub(crate) fn path_starts_with(path: &str, base: &str) -> (r: bool)
    ensures
        r == components(base@).is_prefix_of(components(path@)),
{
    Utf8Path::new(path).starts_with(base)
}

/// The `==` of `Utf8Path` compares the components.
#[verifier::external_body]
pub(crate) fn path_eq(a: &str, b: &str) -> (r: bool)
    ensures
        r == (components(a@) == components(b@)),
{
    Utf8Path::new(a) == Utf8Path::new(b)
}

/// One step of normalization: `.` is left out, `..` takes the last component
/// away, if there is one besides the root, and the root starts anew.
pub open spec fn normalize_step(done: Seq<Comp>, c: Comp) -> Seq<Comp> {
    match c {
        Comp::RootDir => root(),
        Comp::ParentDir => match parent(done) {
            Some(p) => p,
            None => done,
        },
        Comp::Normal(_) => done.push(c),
        Comp::CurDir => done,
        Comp::Prefix(_) => done,
    }
}

/// A path with its `.` and `..` components resolved, without a look at the file
/// system.
pub open spec fn normalized(p: Seq<Comp>) -> Seq<Comp>
    decreases p.len(),
{
    if p.len() == 0 {
        p
    } else {
        normalize_step(normalized(p.drop_last()), p.last())
    }
}

/// Normalization leaves a path with the root in front, if at all, and names
/// otherwise: no `.` and no `..` is left. An absolute path stays absolute, and a
/// relative one relative.
pub proof fn lemma_normalized_shape(p: Seq<Comp>)
    requires
        is_path(p),
    ensures
        is_path(normalized(p)),
        forall|i: int|
            0 <= i < normalized(p).len() ==> #[trigger] normalized(p)[i] is Normal || normalized(
                p,
            )[i] is RootDir,
        is_absolute(normalized(p)) == is_absolute(p),
    decreases p.len(),
{
    if p.len() > 0 {
        let q = p.drop_last();
        assert forall|i: int| 0 <= i < q.len() implies match #[trigger] q[i] {
            Comp::Prefix(_) => false,
            Comp::RootDir => i == 0,
            Comp::CurDir => i == 0,
            Comp::ParentDir => true,
            Comp::Normal(n) => is_name(n),
        } by {
            assert(q[i] == p[i]);
        }
        lemma_normalized_shape(q);
        assert(p.last() == p[p.len() - 1]);
    }
}

/// Whether a path starts from the root and holds nothing but names below it.
pub open spec fn is_plain(p: Seq<Comp>) -> bool {
    is_absolute(p) && forall|i: int| 1 <= i < p.len() ==> #[trigger] p[i] is Normal
}

/// Normalization of a path that starts from the root leaves nothing but names below it.
pub proof fn lemma_normalized_plain(p: Seq<Comp>)
    requires
        is_absolute(p),
    ensures
        is_plain(normalized(p)),
    decreases p.len(),
{
    let q = p.drop_last();
    if q.len() > 0 {
        lemma_normalized_plain(q);
    } else {
        assert(p.last() == p[0]);
    }
}

/// The normal form of a plain path is the path itself.
pub proof fn lemma_plain_fixed(p: Seq<Comp>)
    requires
        is_plain(p),
    ensures
        normalized(p) == p,
    decreases p.len(),
{
    let q = p.drop_last();
    assert(p[p.len() - 1] == p.last());
    assert(q.push(p.last()) =~= p);
    if q.len() > 0 {
        assert forall|i: int| 1 <= i < q.len() implies #[trigger] q[i] is Normal by {
            assert(q[i] == p[i]);
        }
        lemma_plain_fixed(q);
    } else {
        assert(p =~= root());
    }
}

proof fn lemma_normalized_on(a: Seq<Comp>, b: Seq<Comp>, rest: Seq<Comp>)
    requires
        normalized(a) == normalized(b),
    ensures
        normalized(a + rest) == normalized(b + rest),
    decreases rest.len(),
{
    if rest.len() == 0 {
        assert(a + rest =~= a);
        assert(b + rest =~= b);
    } else {
        lemma_normalized_on(a, b, rest.drop_last());
        assert((a + rest).drop_last() =~= a + rest.drop_last());
        assert((b + rest).drop_last() =~= b + rest.drop_last());
    }
}

/// Whether a base is normalized before another path is taken from it makes no
/// difference.
pub proof fn lemma_normalized_joined(p: Seq<Comp>, q: Seq<Comp>)
    requires
        is_absolute(p),
    ensures
        normalized(joined(p, q)) == normalized(joined(normalized(p), q)),
{
    lemma_normalized_plain(p);
    lemma_plain_fixed(normalized(p));
    if !is_absolute(q) {
        lemma_normalized_on(p, normalized(p), q);
        lemma_normalized_on(p, normalized(p), q.skip(1));
    }
}

/// A `..` takes back the name before it.
pub proof fn lemma_parent_takes_back(a: Seq<Comp>, name: Seq<char>, b: Seq<Comp>)
    ensures
        normalized(a.push(Comp::Normal(name)).push(Comp::ParentDir) + b) == normalized(a + b),
{
    let up = a.push(Comp::Normal(name));
    assert(up.drop_last() =~= a);
    assert(up.push(Comp::ParentDir).drop_last() =~= up);
    assert(normalized(up) == normalized(a).push(Comp::Normal(name)));
    assert(normalized(up).drop_last() =~= normalized(a));
    lemma_normalized_on(up.push(Comp::ParentDir), a, b);
}

/// A `..` at the root stays at the root.
pub proof fn lemma_parent_of_root(b: Seq<Comp>)
    ensures
        normalized(seq![Comp::RootDir, Comp::ParentDir] + b) == normalized(seq![Comp::RootDir] + b),
{
    let a = seq![Comp::RootDir, Comp::ParentDir];
    let r = seq![Comp::RootDir];
    assert(a.drop_last() =~= r);
    assert(r.drop_last() =~= Seq::<Comp>::empty());
    assert(normalized(r) == root());
    lemma_normalized_on(a, r, b);
}

/// A `.` changes nothing.
pub proof fn lemma_dot_is_nothing(a: Seq<Comp>, b: Seq<Comp>)
    ensures
        normalized(a.push(Comp::CurDir) + b) == normalized(a + b),
{
    assert(a.push(Comp::CurDir).drop_last() =~= a);
    lemma_normalized_on(a.push(Comp::CurDir), a, b);
}

/// Normalizing once more changes nothing.
pub proof fn lemma_normalized_idempotent(p: Seq<Comp>)
    requires
        is_path(p),
    ensures
        normalized(normalized(p)) == normalized(p),
{
    lemma_normalized_shape(p);
    lemma_normalized_fixed(normalized(p));
}

/// A path of names, with or without a root in front, is normalized already.
pub proof fn lemma_normalized_fixed(p: Seq<Comp>)
    requires
        is_path(p),
        forall|i: int| 0 <= i < p.len() ==> #[trigger] p[i] is Normal || p[i] is RootDir,
    ensures
        normalized(p) == p,
    decreases p.len(),
{
    if p.len() > 0 {
        let q = p.drop_last();
        assert forall|i: int| 0 <= i < q.len() implies match #[trigger] q[i] {
            Comp::Prefix(_) => false,
            Comp::RootDir => i == 0,
            Comp::CurDir => i == 0,
            Comp::ParentDir => true,
            Comp::Normal(n) => is_name(n),
        } && (q[i] is Normal || q[i] is RootDir) by {
            assert(q[i] == p[i]);
        }
        lemma_normalized_fixed(q);
        assert(p.last() == p[p.len() - 1]);
        if p.last() is RootDir {
            assert(p =~= root());
        } else {
            assert(q.push(p.last()) =~= p);
        }
    }
}

/// The path has a prefix, which has no place in a root file system.
#[derive(Debug, PartialEq, Eq)]
pub struct InvalidPrefix {
    pub prefix: String,
}

/// Resolves the `.` and `..` components of a list of components.
///
/// Fails with the first prefix in the list.
pub fn normalize_components(list: &Vec<PathComponent>) -> (r: Result<String, InvalidPrefix>)
    requires
        forall|i: int| 0 <= i < list@.len() ==> match #[trigger] list@[i]@ {
            Comp::Normal(n) => is_name(n),
            _ => true,
        },
    ensures
        match r {
            Ok(text) => {
                &&& forall|i: int| 0 <= i < list@.len() ==> !(#[trigger] list@[i]@ is Prefix)
                &&& components(text@) == normalized(component_views(list@))
            },
            Err(e) => exists|i: int| {
                &&& 0 <= i < list@.len()
                &&& #[trigger] list@[i]@ == Comp::Prefix(e.prefix@)
                &&& forall|j: int| 0 <= j < i ==> !(#[trigger] list@[j]@ is Prefix)
            },
        },
{
    let mut done: String = String::new();
    let ghost views = component_views(list@);
    proof {
        assert(components(done@) =~= normalized(views.take(0))) by {
            lemma_components_empty();
        }
    }
    let mut i: usize = 0;
    while i < list.len()
        invariant
            i <= list@.len(),
            views == component_views(list@),
            forall|k: int| 0 <= k < list@.len() ==> match #[trigger] list@[k]@ {
                Comp::Normal(n) => is_name(n),
                _ => true,
            },
            forall|k: int| 0 <= k < i ==> !(#[trigger] list@[k]@ is Prefix),
            components(done@) == normalized(views.take(i as int)),
        decreases list@.len() - i,
    {
        proof {
            assert(views.take(i + 1).drop_last() =~= views.take(i as int));
            assert(views.take(i + 1).last() == list@[i as int]@);
            lemma_components_path(done@);
        }
        match &list[i] {
            PathComponent::RootDir => {
                done = path_join(done.as_str(), "/");
                proof {
                    lemma_components_root();
                }
            },
            PathComponent::ParentDir => {
                let up: Option<&str> = path_parent(done.as_str());
                if let Some(p) = up {
                    done = p.to_owned();
                }
            },
            PathComponent::Normal(n) => {
                proof {
                    assert(is_name(n@));
                    lemma_components_name(n@);
                    assert(components(done@) + seq![Comp::Normal(n@)] =~= components(done@).push(
                        Comp::Normal(n@),
                    ));
                    assert(Seq::<Comp>::empty().push(Comp::Normal(n@)) =~= seq![Comp::Normal(n@)]);
                    if components(done@).len() == 0 {
                        assert(components(done@) =~= Seq::<Comp>::empty());
                    }
                }
                done = path_join(done.as_str(), n.as_str());
            },
            PathComponent::CurDir => {},
            PathComponent::Prefix(p) => {
                let prefix: String = p.clone();
                assert(list@[i as int]@ == Comp::Prefix(prefix@));
                return Err(InvalidPrefix { prefix });
            },
        }
        i += 1;
    }
    assert(views.take(i as int) =~= views);
    Ok(done)
}

/// Normalizes a path by resolving its `.` and `..` components.
pub fn normalize_path(path: &str) -> (r: Result<String, InvalidPrefix>)
    ensures
        r is Ok,
        components(r->Ok_0@) == normalized(components(path@)),
{
    let list: Vec<PathComponent> = path_components(path);
    proof {
        lemma_components_path(path@);
        assert forall|i: int| 0 <= i < list@.len() implies #[trigger] list@[i]@ == components(
            path@,
        )[i] by {
            assert(component_views(list@)[i] == list@[i]@);
        }
    }
    normalize_components(&list)
}

} // verus!
