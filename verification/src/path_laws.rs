//! What holds of all module paths.
use crate::path::last_segment;
use crate::syntax::{OriginView, PathView};
use vstd::prelude::*;

verus! {

/// Joining components appends them all, in order, and nothing else.
pub proof fn law_joining_appends(path: PathView, a: Seq<Seq<char>>, b: Seq<Seq<char>>)
    ensures
        path.join(a).origin == path.origin,
        path.join(a).components == path.components + a,
        path.join(a).join(b) == path.join(a + b),
{
    assert(path.join(a).join(b).components =~= path.join(a + b).components);
}

/// A path that starts with `self` continues the path of the module it is written in.
pub proof fn law_self_stays_in_the_module(path: PathView, components: Seq<Seq<char>>)
    requires
        path.origin matches OriginView::Relative(m) ==> m <= usize::MAX,
    ensures
        path.join_path(PathView { origin: OriginView::Relative(0), components }) == (PathView {
            origin: path.origin,
            components: path.components + components,
        }),
{
    assert(path.components.take(path.components.len() as int) =~= path.components);
}

/// Each `super` goes up by one module. In a module of a package or at its root there is
/// nothing above the root; a relative path starts one `super` further up.
pub proof fn law_super_goes_up(path: PathView, up: nat, components: Seq<Seq<char>>)
    ensures
        path.join_path(PathView { origin: OriginView::Relative(up + 1), components }) == (
        if path.components.len() > 0 {
            PathView { origin: path.origin, components: path.components.drop_last() }
        } else {
            match path.origin {
                OriginView::Relative(m) => PathView {
                    origin: OriginView::Relative(m + 1),
                    components: path.components,
                },
                _ => path,
            }
        }).join_path(PathView { origin: OriginView::Relative(up), components }),
{
    let n = path.components.len();
    let above = if n > 0 {
        PathView { origin: path.origin, components: path.components.drop_last() }
    } else {
        match path.origin {
            OriginView::Relative(m) => PathView {
                origin: OriginView::Relative(m + 1),
                components: path.components,
            },
            _ => path,
        }
    };
    let res = path.join_path(PathView { origin: OriginView::Relative(up + 1), components });
    let other = above.join_path(PathView { origin: OriginView::Relative(up), components });
    assert(res.components =~= other.components);
}

/// The `super`s of relative paths add up, less those that go up inside the module path, and stop
/// at the largest count there is.
pub proof fn law_supers_add_up(path: PathView, m: nat, up: nat, components: Seq<Seq<char>>)
    requires
        path.origin == OriginView::Relative(m),
        m <= usize::MAX,
    ensures
        path.join_path(
            PathView { origin: OriginView::Relative(up), components },
        ).origin matches OriginView::Relative(k) && {
            &&& m <= k <= usize::MAX
            &&& up <= path.components.len() ==> k == m
            &&& up > path.components.len() ==> k == m + up - path.components.len() || (k
                == usize::MAX && m + up - path.components.len() > k)
        },
{
}

/// An absolute path does not depend on where in the package it is written, and stays in the
/// package.
pub proof fn law_absolute_paths_start_at_the_root(path: PathView, components: Seq<Seq<char>>)
    ensures
        ({
            let res = path.join_path(PathView { origin: OriginView::Absolute, components });
            &&& res.components == components
            &&& path.origin is Package ==> res.origin == path.origin
            &&& !(path.origin is Package) ==> res.origin == OriginView::Absolute
        }),
{
}

/// The name of the innermost package is what follows the last slash.
pub proof fn law_the_innermost_package_follows_the_last_slash(name: Seq<char>)
    ensures
        last_segment(name).len() <= name.len(),
        last_segment(name) == name.skip(name.len() - last_segment(name).len()),
        !last_segment(name).contains('/'),
        last_segment(name).len() < name.len() ==> name[name.len() - last_segment(name).len() - 1]
            == '/',
    decreases name.len(),
{
    if name.len() > 0 && name.last() != '/' {
        let rest = name.drop_last();
        law_the_innermost_package_follows_the_last_slash(rest);
        let seg = last_segment(name);
        assert(seg =~= name.skip(name.len() - seg.len()));
        if seg.contains('/') {
            let i = choose|i: int| 0 <= i < seg.len() && seg[i] == '/';
            assert(last_segment(rest)[i] == '/');
        }
    } else {
        assert(last_segment(name) =~= name.skip(name.len() as int));
    }
}

/// A path into a package is that of the package itself outside of packages. Inside a package
/// it names a dependency, and the name is made of both names, unless the package names
/// itself.
pub proof fn law_package_paths(path: PathView, name: Seq<char>, components: Seq<Seq<char>>)
    ensures
        ({
            let res = path.join_path(PathView { origin: OriginView::Package(name), components });
            &&& res.components == components
            &&& !(path.origin is Package) ==> res.origin == OriginView::Package(name)
            &&& path.origin matches OriginView::Package(outer) ==> res.origin == if last_segment(
                outer,
            ) == last_segment(name) {
                path.origin
            } else {
                OriginView::Package(outer + seq!['/'] + name)
            }
        }),
{
    if path.origin is Package {
        let outer = path.origin->Package_0;
        assert(outer.push('/') =~= outer + seq!['/']);
    }
}

/// What is appended to a path is appended to what the path means.
pub proof fn law_joining_keeps_what_follows(
    path: PathView,
    suffix: PathView,
    more: Seq<Seq<char>>,
)
    ensures
        path.join_path(
            PathView { origin: suffix.origin, components: suffix.components + more },
        ) == (PathView {
            origin: path.join_path(suffix).origin,
            components: path.join_path(suffix).components + more,
        }),
{
    let longer = PathView { origin: suffix.origin, components: suffix.components + more };
    assert(path.join_path(longer).components =~= path.join_path(suffix).components + more);
}

/// A path is written with its components in order, each after `::`, behind `package`, `self`,
/// one `super` for each module that it goes up, or the name of the package.
pub proof fn law_paths_are_written_in_order(
    origin: OriginView,
    components: Seq<Seq<char>>,
    last: Seq<char>,
    up: nat,
    name: Seq<char>,
)
    ensures
        (PathView { origin: OriginView::Absolute, components: Seq::empty() }).text()
            == "package"@,
        (PathView { origin: OriginView::Relative(0), components: Seq::empty() }).text()
            == "self"@,
        (PathView { origin: OriginView::Relative(1), components: Seq::empty() }).text()
            == "super"@,
        up > 0 ==> (PathView {
            origin: OriginView::Relative(up + 1),
            components: Seq::empty(),
        }).text() == (PathView {
            origin: OriginView::Relative(up),
            components: Seq::empty(),
        }).text() + seq![':', ':'] + "super"@,
        (PathView { origin: OriginView::Package(name), components: Seq::empty() }).text() == name,
        (PathView { origin, components: components.push(last) }).text() == (PathView {
            origin,
            components,
        }).text() + seq![':', ':'] + last,
{
    let none = Seq::<Seq<char>>::empty();
    assert(seq!["package"@] + none =~= seq!["package"@]);
    assert(seq!["self"@] + none =~= seq!["self"@]);
    assert(Seq::new(1, |i: int| "super"@) + none =~= seq!["super"@]);
    assert(seq![name] + none =~= seq![name]);
    if up > 0 {
        let more = Seq::new(up + 1, |i: int| "super"@) + none;
        assert(more.drop_last() =~= Seq::new(up, |i: int| "super"@) + none);
        assert(more.last() == "super"@);
    }
    let head = match origin {
        OriginView::Absolute => seq!["package"@],
        OriginView::Relative(n) => if n == 0 {
            seq!["self"@]
        } else {
            Seq::new(n, |i: int| "super"@)
        },
        OriginView::Package(name) => seq![name],
    };
    let all = head + components.push(last);
    assert(all.drop_last() =~= head + components);
    assert(all.last() == last);
}

} // verus!
