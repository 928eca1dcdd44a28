//! The names that a module imports.
use crate::syntax::{
    clone_strings, Attribute, ContentView, Ident, IdentView, Import, ImportContent, ImportItemView,
    ImportStatement, ImportView, ModulePath, OriginView, PathOrigin, PathView, StatementView,
};
use crate::table::{by_name, distinct_keys, find_by_name, insert, put};
use crate::views::{group_views, views};
use vstd::prelude::*;

verus! {

broadcast use group_views;

/// An item that a module imports.
#[derive(Debug)]
pub struct ImportedItem {
    /// The module that the item is imported from.
    pub path: ModulePath,
    /// The item's name in that module, before renaming with `as`.
    pub ident: Ident,
    /// Whether other modules may import the item from here.
    pub public: bool,
}

pub ghost struct ItemView {
    pub path: PathView,
    pub ident: IdentView,
    pub public: bool,
}

impl View for ImportedItem {
    type V = ItemView;

    open spec fn view(&self) -> ItemView {
        ItemView { path: self.path@, ident: self.ident@, public: self.public }
    }
}

/// The imported items of a module, each at the identifier that stands for it there.
pub type Imports = Vec<(Ident, ImportedItem)>;

/// The view of [`Imports`].
pub type ImportsView = Seq<(IdentView, ItemView)>;

impl ImportItemView {
    /// The identifier that stands for the item in the importing module.
    pub open spec fn key(self) -> IdentView {
        match self.rename {
            Some(rename) => rename,
            None => self.ident,
        }
    }
}

/// The items that an import brings in from below `path`, in source order.
pub open spec fn content_items(content: ContentView, path: PathView, public: bool) -> ImportsView
    decreases content,
{
    match content {
        ContentView::Item(item) => seq![
            (item.key(), ItemView { path, ident: item.ident, public }),
        ],
        ContentView::Collection(imports) => collection_items(imports, path, public),
    }
}

/// The items that the imports of a collection bring in from below `path`, in source order.
pub open spec fn collection_items(
    imports: Seq<ImportView>,
    path: PathView,
    public: bool,
) -> ImportsView
    decreases imports,
{
    if imports.len() == 0 {
        Seq::empty()
    } else {
        collection_items(imports.drop_last(), path, public) + content_items(
            imports.last().content,
            path.join(imports.last().path),
            public,
        )
    }
}

/// The items that an import without a leading module path brings in: its first component
/// is the name of a package. An import that has no component brings in nothing.
pub open spec fn package_items(import: ImportView, public: bool) -> ImportsView {
    if import.path.len() == 0 {
        Seq::empty()
    } else {
        content_items(
            import.content,
            PathView {
                origin: OriginView::Package(import.path[0]),
                components: import.path.drop_first(),
            },
            public,
        )
    }
}

/// The items that a collection without a leading module path brings in, in source order.
pub open spec fn packages_items(imports: Seq<ImportView>, public: bool) -> ImportsView
    decreases imports.len(),
{
    if imports.len() == 0 {
        Seq::empty()
    } else {
        packages_items(imports.drop_last(), public) + package_items(imports.last(), public)
    }
}

/// The items that an import statement in the module at `path` brings in, in source order.
///
/// `import foo;`, without any path, brings in nothing.
pub open spec fn statement_items(statement: StatementView, path: PathView) -> ImportsView {
    let public = statement.attributes.contains(Attribute::Publish);
    match statement.path {
        Some(import_path) => content_items(
            statement.content,
            path.join_path(import_path),
            public,
        ),
        None => match statement.content {
            ContentView::Item(item) => Seq::empty(),
            ContentView::Collection(imports) => packages_items(imports, public),
        },
    }
}

/// The items that the import statements of the module at `path` bring in, in source order.
pub open spec fn statements_items(statements: Seq<StatementView>, path: PathView) -> ImportsView
    decreases statements.len(),
{
    if statements.len() == 0 {
        Seq::empty()
    } else {
        statements_items(statements.drop_last(), path) + statement_items(statements.last(), path)
    }
}

/// A table after one insertion for each entry of `more`.
pub open spec fn insert_all<V>(entries: Seq<(IdentView, V)>, more: Seq<(IdentView, V)>) -> Seq<
    (IdentView, V),
>
    decreases more.len(),
{
    if more.len() == 0 {
        entries
    } else {
        insert(insert_all(entries, more.drop_last()), more.last().0, more.last().1)
    }
}

/// The import table of a module: its imported items, where a later import of the same
/// identifier replaces an earlier one.
pub open spec fn import_table(statements: Seq<StatementView>, path: PathView) -> ImportsView {
    insert_all(Seq::empty(), statements_items(statements, path))
}

/// Inserting two lists one after the other inserts their concatenation.
pub proof fn lemma_insert_all_concat<V>(
    entries: Seq<(IdentView, V)>,
    a: Seq<(IdentView, V)>,
    b: Seq<(IdentView, V)>,
)
    ensures
        insert_all(entries, a + b) == insert_all(insert_all(entries, a), b),
    decreases b.len(),
{
    if b.len() == 0 {
        assert(a + b =~= a);
    } else {
        assert((a + b).drop_last() =~= a + b.drop_last());
        lemma_insert_all_concat(entries, a, b.drop_last());
    }
}

/// What one level of a collection's content looks like from above.
proof fn lemma_collection_view(imports: &Vec<Import>)
    ensures
        ImportContent::Collection(*imports)@ == ContentView::Collection(views(imports@)),
{
    assert(ImportContent::Collection(*imports)@->Collection_0 =~= views(imports@));
}

/// Inserts the items that `content` brings in from below `path`.
fn flatten_content(content: &ImportContent, path: ModulePath, public: bool, res: &mut Imports)
    requires
        distinct_keys(views(old(res)@)),
    ensures
        distinct_keys(views(final(res)@)),
        views(final(res)@) == insert_all(
            views(old(res)@),
            content_items(content@, path@, public),
        ),
    decreases content,
{
    match content {
        ImportContent::Item(item) => {
            let ident = match &item.rename {
                Some(rename) => rename.clone(),
                None => item.ident.clone(),
            };
            let imported = ImportedItem { path, ident: item.ident.clone(), public };
            proof {
                let items = content_items(content@, path@, public);
                assert(items.drop_last() =~= Seq::empty());
                assert(insert_all(views(res@), items.drop_last()) == views(res@));
            }
            put(res, ident, imported);
        },
        ImportContent::Collection(imports) => {
            proof {
                lemma_collection_view(imports);
            }
            let ghost before = views(res@);
            let mut i: usize = 0;
            while i < imports.len()
                invariant
                    i <= imports@.len(),
                    distinct_keys(views(res@)),
                    content == &ImportContent::Collection(*imports),
                    views(res@) == insert_all(
                        before,
                        collection_items(views(imports@).take(i as int), path@, public),
                    ),
                decreases imports@.len() - i,
            {
                let import = &imports[i];
                proof {
                    let next = views(imports@).take(i + 1);
                    assert(next.drop_last() =~= views(imports@).take(i as int));
                    assert(next.last() == import@);
                    lemma_insert_all_concat(
                        before,
                        collection_items(next.drop_last(), path@, public),
                        content_items(import@.content, path@.join(import@.path), public),
                    );
                }
                proof {
                    assert(decreases_to!(content => content->Collection_0));
                    assert(decreases_to!(imports => imports@));
                    assert(decreases_to!(imports@ => imports@[i as int]));
                    assert(decreases_to!(*import => import.content));
                }
                let joined = path.clone().join(&import.path);
                flatten_content(&import.content, joined, public, res);
                i += 1;
            }
            assert(views(imports@).take(i as int) =~= views(imports@));
        },
    }
}

/// Whether `@publish` is among the attributes.
fn is_published(attributes: &Vec<Attribute>) -> (res: bool)
    ensures
        res == attributes@.contains(Attribute::Publish),
{
    let mut i: usize = 0;
    while i < attributes.len()
        invariant
            i <= attributes@.len(),
            forall|j: int| 0 <= j < i ==> attributes@[j] != Attribute::Publish,
        decreases attributes@.len() - i,
    {
        if attributes[i] == Attribute::Publish {
            return true;
        }
        i += 1;
    }
    false
}

/// Inserts the items that a collection without a leading module path brings in.
fn flatten_packages(imports: &Vec<Import>, public: bool, res: &mut Imports)
    requires
        distinct_keys(views(old(res)@)),
    ensures
        distinct_keys(views(final(res)@)),
        views(final(res)@) == insert_all(
            views(old(res)@),
            packages_items(views(imports@), public),
        ),
{
    let ghost before = views(res@);
    let mut i: usize = 0;
    while i < imports.len()
        invariant
            i <= imports@.len(),
            distinct_keys(views(res@)),
            views(res@) == insert_all(
                before,
                packages_items(views(imports@).take(i as int), public),
            ),
        decreases imports@.len() - i,
    {
        let import = &imports[i];
        proof {
            let next = views(imports@).take(i + 1);
            assert(next.drop_last() =~= views(imports@).take(i as int));
            assert(next.last() == import@);
            lemma_insert_all_concat(
                before,
                packages_items(next.drop_last(), public),
                package_items(import@, public),
            );
        }
        if import.path.len() > 0 {
            // `import {foo::bar}`, foo becomes the package name.
            let mut components = clone_strings(&import.path);
            let name = components.remove(0);
            assert(name@ == views(import.path@)[0]) by {
                assert(views(import.path@).len() > 0);
            }
            assert(views(components@) =~= views(import.path@).drop_first());
            let path = ModulePath::new(PathOrigin::Package(name), components);
            flatten_content(&import.content, path, public, res);
        }
        i += 1;
    }
    assert(views(imports@).take(i as int) =~= views(imports@));
}

/// Flattens the import statements of the module at `path` to a table.
pub fn flatten_imports(imports: &Vec<ImportStatement>, path: &ModulePath) -> (res: Imports)
    ensures
        views(res@) == import_table(views(imports@), path@),
        distinct_keys(views(res@)),
{
    let mut res: Imports = Vec::new();
    assert(views(res@) =~= Seq::empty());
    let mut i: usize = 0;
    while i < imports.len()
        invariant
            i <= imports@.len(),
            distinct_keys(views(res@)),
            views(res@) == insert_all(
                Seq::empty(),
                statements_items(views(imports@).take(i as int), path@),
            ),
        decreases imports@.len() - i,
    {
        let import = &imports[i];
        proof {
            let next = views(imports@).take(i + 1);
            assert(next.drop_last() =~= views(imports@).take(i as int));
            assert(next.last() == import@);
            lemma_insert_all_concat(
                Seq::empty(),
                statements_items(next.drop_last(), path@),
                statement_items(import@, path@),
            );
        }
        let public = is_published(&import.attributes);
        match &import.path {
            Some(import_path) => {
                let joined = path.join_path(import_path);
                flatten_content(&import.content, joined, public, &mut res);
            },
            None => match &import.content {
                ImportContent::Item(_) => {
                    // `import foo;` does nothing.
                },
                ImportContent::Collection(collection) => {
                    proof {
                        lemma_collection_view(collection);
                    }
                    flatten_packages(collection, public, &mut res);
                },
            },
        }
        i += 1;
    }
    assert(views(imports@).take(i as int) =~= views(imports@));
    res
}

/// The module that an inline path in the module at `parent_path` means.
///
/// A package path whose package name is an imported name continues the path of that
/// import: with `import a::b::c as foo;`, the path of `foo::bar::baz` is `a::b::c::bar`.
pub open spec fn inline_path(
    path: PathView,
    parent_path: PathView,
    imports: ImportsView,
) -> PathView {
    match path.origin {
        OriginView::Package(name) => match by_name(imports, name) {
            Some((_, item)) => item.path.join(seq![item.ident.name]).join(path.components),
            None => parent_path.join_path(path),
        },
        _ => parent_path.join_path(path),
    }
}

/// Finds the module path that an inline import means.
///
/// Inline imports differ from import statements only in case of package imports: the
/// package component may refer to a local import shadowing the package name.
pub fn resolve_inline_path(
    path: &ModulePath,
    parent_path: &ModulePath,
    imports: &Imports,
) -> (res: ModulePath)
    ensures
        res@ == inline_path(path@, parent_path@, views(imports@)),
{
    match &path.origin {
        PathOrigin::Package(pkg_name) => {
            match find_by_name(imports, pkg_name) {
                Some(entry) => {
                    let mut res = entry.1.path.clone();
                    res.push(&entry.1.ident.name);
                    res.join(&path.components)
                },
                None => parent_path.join_path(path),
            }
        },
        _ => parent_path.join_path(path),
    }
}

} // verus!
