use wesl_import::error::{Error, ImportError, Location, ResolveError};
use wesl_import::syntax::{ModulePath, PathOrigin};

fn words(list: &[&str]) -> Vec<String> {
    list.iter().map(|s| s.to_string()).collect()
}

fn path(origin: PathOrigin, components: &[&str]) -> ModulePath {
    ModulePath::new(origin, words(components))
}

fn absolute(components: &[&str]) -> ModulePath {
    path(PathOrigin::Absolute, components)
}

fn relative(up: usize, components: &[&str]) -> ModulePath {
    path(PathOrigin::Relative(up), components)
}

fn package(name: &str, components: &[&str]) -> ModulePath {
    path(PathOrigin::Package(name.to_string()), components)
}

#[test]
fn relative_suffix_drops_components() {
    assert_eq!(
        absolute(&["m1", "m2"]).join_path(&relative(1, &["foo"])),
        absolute(&["m1", "foo"])
    );
    assert_eq!(
        absolute(&["m1", "m2"]).join_path(&relative(0, &["foo"])),
        absolute(&["m1", "m2", "foo"])
    );
    assert_eq!(
        package("a", &["m1"]).join_path(&relative(1, &["foo"])),
        package("a", &["foo"])
    );
}

#[test]
fn relative_suffix_beyond_the_root() {
    // an absolute path has nothing above its root
    assert_eq!(
        absolute(&["m1"]).join_path(&relative(3, &["foo"])),
        absolute(&["foo"])
    );
    // a relative path goes further up
    assert_eq!(
        relative(1, &["m1"]).join_path(&relative(3, &["foo"])),
        relative(3, &["foo"])
    );
}

#[test]
fn relative_suffix_saturates() {
    assert_eq!(
        relative(usize::MAX, &[]).join_path(&relative(2, &["foo"])),
        relative(usize::MAX, &["foo"])
    );
}

#[test]
fn absolute_suffix_stays_in_the_package() {
    assert_eq!(
        package("a", &["m1"]).join_path(&absolute(&["foo"])),
        package("a", &["foo"])
    );
    assert_eq!(
        relative(1, &["m1"]).join_path(&absolute(&["foo"])),
        absolute(&["foo"])
    );
}

#[test]
fn package_suffix_names_a_dependency() {
    assert_eq!(
        absolute(&["m1"]).join_path(&package("b", &["foo"])),
        package("b", &["foo"])
    );
    assert_eq!(
        package("a", &["m1"]).join_path(&package("b", &["foo"])),
        package("a/b", &["foo"])
    );
    // a package that names itself stays where it is
    assert_eq!(
        package("x/a", &["m1"]).join_path(&package("a", &["foo"])),
        package("x/a", &["foo"])
    );
}

#[test]
fn packages_with_slashes() {
    assert_eq!(
        package("lygia", &["m1"]).join_path(&package("pkg/lygia", &[])),
        package("lygia", &[])
    );
    assert_eq!(
        package("pkg1/lygia", &["m1"]).join_path(&package("pkg2/lygia", &["math"])),
        package("pkg1/lygia", &["math"])
    );
}

#[test]
fn paths_are_written_with_colons() {
    assert_eq!(absolute(&["m1", "m2"]).text(), "package::m1::m2");
    assert_eq!(absolute(&[]).text(), "package");
    assert_eq!(relative(0, &["m1"]).text(), "self::m1");
    assert_eq!(relative(2, &["m1"]).text(), "super::super::m1");
    assert_eq!(package("a/b", &["m1"]).text(), "a/b::m1");
}

#[test]
fn push_and_join_append() {
    let mut p = absolute(&["m1"]);
    p.push(&"m2".to_string());
    assert_eq!(p, absolute(&["m1", "m2"]));
    assert_eq!(
        p.join(&words(&["m3", "m4"])),
        absolute(&["m1", "m2", "m3", "m4"])
    );
}

#[test]
fn equality_of_paths() {
    assert!(absolute(&["m1"]).equals(&absolute(&["m1"])));
    assert!(!absolute(&["m1"]).equals(&absolute(&["m2"])));
    assert!(!absolute(&["m1"]).equals(&relative(0, &["m1"])));
    assert!(!relative(1, &["m1"]).equals(&relative(0, &["m1"])));
    assert!(!package("a", &[]).equals(&package("b", &[])));
    assert!(package("a", &[]).equals(&package("a", &[])));
}

#[test]
fn messages_of_errors() {
    assert_eq!(
        ImportError::DuplicateSymbol("foo".to_string()).message(),
        "duplicate declaration of `foo`"
    );
    assert_eq!(
        ImportError::MissingDecl(absolute(&["m1"]), "foo".to_string()).message(),
        "module `package::m1` has no declaration `foo`"
    );
    assert_eq!(
        ImportError::Private("foo".to_string(), absolute(&["m1"])).message(),
        "import of `foo` in module `package::m1` is not `@publish`, but another module tried to \
         import it"
    );
    let e = ResolveError {
        message: "file not found".to_string(),
        location: None,
    };
    assert_eq!(ImportError::from(e).message(), "file not found");
}

#[test]
fn the_innermost_location_wins() {
    let e = Error::import(ImportError::DuplicateSymbol("foo".to_string()));
    assert_eq!(e.location, None);
    let e = e.with_module_path(absolute(&["inner"]), Some("inner.wesl".to_string()));
    let inner = Location {
        path: absolute(&["inner"]),
        display_name: Some("inner.wesl".to_string()),
    };
    assert_eq!(e.location, Some(inner));
    let e = e.with_module_path(absolute(&["outer"]), None);
    let inner = Location {
        path: absolute(&["inner"]),
        display_name: Some("inner.wesl".to_string()),
    };
    assert_eq!(e.location, Some(inner));
}
