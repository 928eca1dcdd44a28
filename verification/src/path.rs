//! Module paths: comparing, extending and joining them.
use crate::syntax::{clone_strings, ModulePath, OriginView, PathOrigin, PathView};
use crate::views::{group_views, views};
use vstd::prelude::*;
use wgsl_parse::syntax;

verus! {

broadcast use group_views;

/// The larger of a difference and zero.
pub open spec fn monus(a: nat, b: nat) -> nat {
    if a >= b {
        (a - b) as nat
    } else {
        0
    }
}

/// A count, or the largest `usize` if the count is larger.
pub open spec fn at_most_usize(n: nat) -> nat {
    if n <= usize::MAX {
        n
    } else {
        usize::MAX as nat
    }
}

/// The part of a package name after its last slash: the name of the innermost package.
pub open spec fn last_segment(name: Seq<char>) -> Seq<char>
    decreases name.len(),
{
    if name.len() == 0 || name.last() == '/' {
        Seq::empty()
    } else {
        last_segment(name.drop_last()).push(name.last())
    }
}

impl PathView {
    /// The path with more components at its end.
    pub open spec fn join(self, suffix: Seq<Seq<char>>) -> PathView {
        PathView { origin: self.origin, components: self.components + suffix }
    }

    /// What `suffix` means when it is written inside the module at this path.
    ///
    /// * A relative suffix drops one component for each `super` and appends its own
    ///   components. The `super`s that find no component to drop are added to those the
    ///   path already starts with, as far as a `usize` can count them.
    /// * An absolute suffix is taken from the root of the package that the module is in.
    /// * A package suffix inside a package is a dependency of that package, and is given
    ///   a name made of both; a package that names itself stays where it is.
    pub open spec fn join_path(self, suffix: PathView) -> PathView {
        let n = self.components.len();
        match suffix.origin {
            OriginView::Relative(up) => PathView {
                origin: match self.origin {
                    OriginView::Relative(m) => OriginView::Relative(
                        at_most_usize(m + monus(up, n)),
                    ),
                    _ => self.origin,
                },
                components: self.components.take(monus(n, up) as int) + suffix.components,
            },
            OriginView::Absolute => PathView {
                origin: if self.origin is Package {
                    self.origin
                } else {
                    OriginView::Absolute
                },
                components: suffix.components,
            },
            OriginView::Package(inner) => PathView {
                origin: match self.origin {
                    OriginView::Package(outer) => if last_segment(outer) == last_segment(inner) {
                        self.origin
                    } else {
                        OriginView::Package(outer.push('/') + inner)
                    },
                    _ => suffix.origin,
                },
                components: suffix.components,
            },
        }
    }
}

/// Whether two vectors hold the same strings.
pub fn strings_equal(a: &Vec<String>, b: &Vec<String>) -> (res: bool)
    ensures
        res == (views(a@) == views(b@)),
{
    if a.len() != b.len() {
        assert(views(a@).len() != views(b@).len());
        return false;
    }
    let mut i: usize = 0;
    while i < a.len()
        invariant
            i <= a@.len(),
            a@.len() == b@.len(),
            forall|j: int| 0 <= j < i ==> views(a@)[j] == views(b@)[j],
        decreases a@.len() - i,
    {
        if !(a[i] == b[i]) {
            assert(views(a@)[i as int] != views(b@)[i as int]);
            return false;
        }
        i += 1;
    }
    assert(views(a@) =~= views(b@));
    true
}

/// Parts of a path, written with `::` between them.
pub open spec fn separated(parts: Seq<Seq<char>>) -> Seq<char>
    decreases parts.len(),
{
    if parts.len() == 0 {
        Seq::empty()
    } else if parts.len() == 1 {
        parts[0]
    } else {
        separated(parts.drop_last()) + seq![':', ':'] + parts.last()
    }
}

impl PathView {
    /// The path as it is written in source code.
    pub open spec fn text(self) -> Seq<char> {
        let head = match self.origin {
            OriginView::Absolute => seq!["package"@],
            OriginView::Relative(n) => if n == 0 {
                seq!["self"@]
            } else {
                Seq::new(n, |i: int| "super"@)
            },
            OriginView::Package(name) => seq![name],
        };
        separated(head + self.components)
    }

    /// Whether the text of the path fits into a string, even if every character takes four
    /// bytes.
    pub open spec fn is_printable(self) -> bool {
        self.text().len() * 4 <= isize::MAX
    }
}

/// Calls `ModulePath::join_path` of `wgsl_parse` on the same two paths.
///
/// The outside function distinguishes the three cases of [`PathView::join_path`] in the
/// same way. It adds up the leading `super`s of two relative paths and panics if the sum
/// does not fit a `usize`, which the precondition rules out.
#[verifier::external_body]
fn syntax_join_path(path: &ModulePath, suffix: &ModulePath) -> (res: ModulePath)
    requires
        path@.origin matches OriginView::Relative(m) ==> suffix@.origin matches OriginView::Relative(
            up,
        ) ==> m + monus(up, path@.components.len()) <= usize::MAX,
    ensures
        res@ == path@.join_path(suffix@),
{
    let outer = |p: &ModulePath| syntax::ModulePath::new(
        match &p.origin {
            PathOrigin::Absolute => syntax::PathOrigin::Absolute,
            PathOrigin::Relative(n) => syntax::PathOrigin::Relative(*n),
            PathOrigin::Package(name) => syntax::PathOrigin::Package(name.clone()),
        },
        p.components.clone(),
    );
    let joined = outer(path).join_path(&outer(suffix));
    let origin = match joined.origin {
        syntax::PathOrigin::Absolute => PathOrigin::Absolute,
        syntax::PathOrigin::Relative(n) => PathOrigin::Relative(n),
        syntax::PathOrigin::Package(name) => PathOrigin::Package(name),
    };
    ModulePath { origin, components: joined.components }
}

/// Calls the `Display` implementation of `ModulePath` of `wgsl_parse` on the same path.
///
/// The outside code writes the origin, then the components, with `::` in between. It panics
/// if the result is too long for a string, which the precondition rules out.
#[verifier::external_body]
fn syntax_path_text(path: &ModulePath) -> (res: String)
    requires
        path@.is_printable(),
    ensures
        res@ == path@.text(),
{
    let origin = match &path.origin {
        PathOrigin::Absolute => syntax::PathOrigin::Absolute,
        PathOrigin::Relative(n) => syntax::PathOrigin::Relative(*n),
        PathOrigin::Package(name) => syntax::PathOrigin::Package(name.clone()),
    };
    syntax::ModulePath::new(origin, path.components.clone()).to_string()
}

impl PathOrigin {
    /// Whether two origins are the same.
    pub fn equals(&self, other: &PathOrigin) -> (res: bool)
        ensures
            res == (self@ == other@),
    {
        match (self, other) {
            (PathOrigin::Absolute, PathOrigin::Absolute) => true,
            (PathOrigin::Relative(m), PathOrigin::Relative(n)) => *m == *n,
            (PathOrigin::Package(a), PathOrigin::Package(b)) => *a == *b,
            _ => false,
        }
    }
}

impl ModulePath {
    /// A path made of its parts.
    pub fn new(origin: PathOrigin, components: Vec<String>) -> (res: ModulePath)
        ensures
            res@ == (PathView { origin: origin@, components: views(components@) }),
    {
        ModulePath { origin, components }
    }

    /// Whether two paths are the same.
    pub fn equals(&self, other: &ModulePath) -> (res: bool)
        ensures
            res == (self@ == other@),
    {
        self.origin.equals(&other.origin) && strings_equal(&self.components, &other.components)
    }

    /// Appends a component.
    pub fn push(&mut self, item: &String)
        ensures
            final(self)@ == old(self)@.join(seq![item@]),
    {
        self.components.push(item.clone());
        assert(self@.components =~= old(self)@.components + seq![item@]);
    }

    /// The path with more components at its end.
    pub fn join(self, suffix: &Vec<String>) -> (res: ModulePath)
        ensures
            res@ == self@.join(views(suffix@)),
    {
        let mut res = self;
        let mut i: usize = 0;
        while i < suffix.len()
            invariant
                i <= suffix@.len(),
                res@ == self@.join(views(suffix@).take(i as int)),
            decreases suffix@.len() - i,
        {
            let ghost before = res@;
            res.push(&suffix[i]);
            assert(before.join(seq![views(suffix@)[i as int]]).components
                =~= self@.join(views(suffix@).take(i + 1)).components);
            i += 1;
        }
        assert(views(suffix@).take(i as int) == views(suffix@));
        res
    }

    /// What `suffix` means when it is written inside the module at this path.
    pub fn join_path(&self, suffix: &ModulePath) -> (res: ModulePath)
        ensures
            res@ == self@.join_path(suffix@),
    {
        let len: usize = self.components.len();
        if let (PathOrigin::Relative(m), PathOrigin::Relative(up)) = (&self.origin, &suffix.origin) {
            if *up > len && *m > usize::MAX - (*up - len) {
                let components = clone_strings(&suffix.components);
                assert(self@.components.take(0) + suffix@.components =~= suffix@.components);
                return ModulePath { origin: PathOrigin::Relative(usize::MAX), components };
            }
        }
        syntax_join_path(self, suffix)
    }

    /// The path as it is written in source code.
    pub fn text(&self) -> (res: String)
        requires
            self@.is_printable(),
        ensures
            res@ == self@.text(),
    {
        syntax_path_text(self)
    }
}

} // verus!
