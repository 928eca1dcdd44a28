use wesl_import::imports::{flatten_imports, resolve_inline_path, Imports};
use wesl_import::syntax::{
    Attribute, Ident, Import, ImportContent, ImportItem, ImportStatement, ModulePath, PathOrigin,
};
use wesl_import::table::put;

fn words(list: &[&str]) -> Vec<String> {
    list.iter().map(|s| s.to_string()).collect()
}

fn absolute(components: &[&str]) -> ModulePath {
    ModulePath::new(PathOrigin::Absolute, words(components))
}

fn relative(up: usize, components: &[&str]) -> ModulePath {
    ModulePath::new(PathOrigin::Relative(up), words(components))
}

fn package(name: &str, components: &[&str]) -> ModulePath {
    ModulePath::new(PathOrigin::Package(name.to_string()), words(components))
}

fn ident(id: u64, name: &str) -> Ident {
    Ident {
        id,
        name: name.to_string(),
    }
}

fn item(id: u64, name: &str) -> ImportContent {
    ImportContent::Item(ImportItem {
        ident: ident(id, name),
        rename: None,
    })
}

fn renamed(id: u64, name: &str, new_id: u64, new_name: &str) -> ImportContent {
    ImportContent::Item(ImportItem {
        ident: ident(id, name),
        rename: Some(ident(new_id, new_name)),
    })
}

fn collection(imports: Vec<(&[&str], ImportContent)>) -> ImportContent {
    ImportContent::Collection(
        imports
            .into_iter()
            .map(|(path, content)| Import {
                path: words(path),
                content,
            })
            .collect(),
    )
}

fn statement(path: Option<ModulePath>, content: ImportContent) -> ImportStatement {
    ImportStatement {
        attributes: vec![],
        path,
        content,
    }
}

/// Each import as key id, key name, path, name there and whether it is public.
fn table(imports: &Imports) -> Vec<(u64, String, String, String, bool)> {
    imports
        .iter()
        .map(|(key, item)| {
            (
                key.id,
                key.name.clone(),
                item.path.text(),
                item.ident.name.clone(),
                item.public,
            )
        })
        .collect()
}

fn row(id: u64, key: &str, path: &str, name: &str, public: bool) -> (u64, String, String, String, bool) {
    (
        id,
        key.to_string(),
        path.to_string(),
        name.to_string(),
        public,
    )
}

#[test]
fn an_item_is_indexed_under_its_name() {
    // import super::util::foo;
    let imports = vec![statement(Some(relative(1, &["util"])), item(1, "foo"))];
    let res = flatten_imports(&imports, &absolute(&["m1", "m2"]));
    assert_eq!(table(&res), vec![row(1, "foo", "package::m1::util", "foo", false)]);
}

#[test]
fn a_renamed_item_is_indexed_under_its_new_name() {
    // import package::util::foo as bar;
    let imports = vec![statement(Some(absolute(&["util"])), renamed(1, "foo", 2, "bar"))];
    let res = flatten_imports(&imports, &absolute(&["main"]));
    assert_eq!(table(&res), vec![row(2, "bar", "package::util", "foo", false)]);
}

#[test]
fn collections_nest() {
    // import package::a::{b::{c, d as e}, f};
    let inner = collection(vec![(&[], item(1, "c")), (&[], renamed(2, "d", 3, "e"))]);
    let outer = collection(vec![(&["b"], inner), (&[], item(4, "f"))]);
    let res = flatten_imports(
        &vec![statement(Some(absolute(&["a"])), outer)],
        &absolute(&["main"]),
    );
    assert_eq!(
        table(&res),
        vec![
            row(1, "c", "package::a::b", "c", false),
            row(3, "e", "package::a::b", "d", false),
            row(4, "f", "package::a", "f", false),
        ]
    );
}

#[test]
fn a_bare_item_does_nothing() {
    // import foo;
    let res = flatten_imports(&vec![statement(None, item(1, "foo"))], &absolute(&["main"]));
    assert!(res.is_empty());
}

#[test]
fn a_bare_collection_imports_from_packages() {
    // import {foo::bar::x, baz};
    let content = collection(vec![(&["foo", "bar"], item(1, "x")), (&[], item(2, "baz"))]);
    let res = flatten_imports(&vec![statement(None, content)], &absolute(&["main"]));
    assert_eq!(table(&res), vec![row(1, "x", "foo::bar", "x", false)]);
}

#[test]
fn published_imports_are_public() {
    // @publish import package::a::{b, c}; import package::a::d;
    let mut published = statement(
        Some(absolute(&["a"])),
        collection(vec![(&[], item(1, "b")), (&[], item(2, "c"))]),
    );
    published.attributes = vec![Attribute::Other(7), Attribute::Publish];
    let private = statement(Some(absolute(&["a"])), item(3, "d"));
    let res = flatten_imports(&vec![published, private], &absolute(&["main"]));
    assert_eq!(
        table(&res),
        vec![
            row(1, "b", "package::a", "b", true),
            row(2, "c", "package::a", "c", true),
            row(3, "d", "package::a", "d", false),
        ]
    );
}

#[test]
fn the_last_import_of_an_identifier_wins() {
    let imports = vec![
        statement(Some(absolute(&["a"])), item(1, "x")),
        statement(Some(absolute(&["b"])), item(1, "x")),
    ];
    let res = flatten_imports(&imports, &absolute(&["main"]));
    assert_eq!(table(&res), vec![row(1, "x", "package::b", "x", false)]);
}

#[test]
fn import_tables_add_up() {
    let first = || {
        let content = collection(vec![(&[], item(1, "x")), (&[], item(2, "y"))]);
        statement(Some(absolute(&["a"])), content)
    };
    let second = || {
        let content = collection(vec![(&[], item(3, "z")), (&[], item(1, "x"))]);
        statement(Some(absolute(&["b"])), content)
    };
    let main = absolute(&["main"]);
    // what both import comes from the second
    assert_eq!(
        table(&flatten_imports(&vec![first(), second()], &main)),
        vec![
            row(1, "x", "package::b", "x", false),
            row(2, "y", "package::a", "y", false),
            row(3, "z", "package::b", "z", false),
        ]
    );
    let mut extended = flatten_imports(&vec![first()], &main);
    for (key, item) in flatten_imports(&vec![second()], &main) {
        put(&mut extended, key, item);
    }
    assert_eq!(table(&extended), table(&flatten_imports(&vec![first(), second()], &main)));
}

#[test]
fn an_inline_path_can_start_with_an_import() {
    // import a::b::c as foo; foo::bar::baz
    let imports = flatten_imports(
        &vec![statement(Some(package("a", &["b"])), renamed(1, "c", 2, "foo"))],
        &absolute(&["main"]),
    );
    let res = resolve_inline_path(&package("foo", &["bar"]), &absolute(&["main"]), &imports);
    assert_eq!(res, package("a", &["b", "c", "bar"]));
    // a package that is not shadowed
    let res = resolve_inline_path(&package("other", &["bar"]), &absolute(&["main"]), &imports);
    assert_eq!(res, package("other", &["bar"]));
    // other origins are not shadowed
    let res = resolve_inline_path(&relative(1, &["foo"]), &absolute(&["main"]), &imports);
    assert_eq!(res, absolute(&["foo"]));
}
