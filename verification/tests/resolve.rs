use std::cell::RefCell;
use wesl_import::error::{Cause, Error, ImportError, Location, ResolveError};
use wesl_import::load::{load_modules, Resolver};
use wesl_import::resolutions::Resolutions;
use wesl_import::resolve::{resolve_eager, resolve_lazy};
use wesl_import::retarget::find_ext_ident;
use wesl_import::syntax::{
    Attribute, DeclarationKind, GlobalDeclaration, Ident, ImportContent, ImportItem,
    ImportStatement, ModulePath, PathOrigin, TranslationUnit, TypeExpression,
};

fn absolute(components: &[&str]) -> ModulePath {
    ModulePath::new(
        PathOrigin::Absolute,
        components.iter().map(|s| s.to_string()).collect(),
    )
}

fn ident(id: u64, name: &str) -> Ident {
    Ident {
        id,
        name: name.to_string(),
    }
}

fn ty(id: u64, name: &str) -> TypeExpression {
    TypeExpression {
        path: None,
        ident: ident(id, name),
        local: false,
        nested: vec![],
    }
}

fn decl(id: u64, name: &str, types: Vec<TypeExpression>) -> GlobalDeclaration {
    GlobalDeclaration {
        kind: DeclarationKind::Named(ident(id, name)),
        types,
        node: id,
    }
}

fn const_assert(types: Vec<TypeExpression>) -> GlobalDeclaration {
    GlobalDeclaration {
        kind: DeclarationKind::ConstAssert,
        types,
        node: 0,
    }
}

fn import(id: u64, name: &str, from: &str, public: bool) -> ImportStatement {
    ImportStatement {
        attributes: if public { vec![Attribute::Publish] } else { vec![] },
        path: Some(absolute(&[from])),
        content: ImportContent::Item(ImportItem {
            ident: ident(id, name),
            rename: None,
        }),
    }
}

fn unit(imports: Vec<ImportStatement>, decls: Vec<GlobalDeclaration>) -> TranslationUnit {
    TranslationUnit {
        imports,
        global_directives: vec![],
        global_declarations: decls,
    }
}

/// A resolver that makes modules from a function, and remembers what it was asked.
struct Files {
    make: fn(&str) -> Option<TranslationUnit>,
    asked: RefCell<Vec<String>>,
}

fn files(make: fn(&str) -> Option<TranslationUnit>) -> Files {
    Files {
        make,
        asked: RefCell::new(vec![]),
    }
}

impl Resolver for Files {
    fn resolve_module(&self, path: &ModulePath) -> Result<TranslationUnit, ResolveError> {
        let name = path.text();
        self.asked.borrow_mut().push(name.clone());
        match (self.make)(&name) {
            Some(unit) => Ok(unit),
            None => Err(ResolveError {
                message: format!("no file for {name}"),
                location: None,
            }),
        }
    }

    fn display_name(&self, path: &ModulePath) -> Option<String> {
        Some(format!("{}.wesl", path.components.join("/")))
    }
}

fn order(resolutions: &Resolutions) -> Vec<String> {
    resolutions.modules().iter().map(|m| m.path.text()).collect()
}

fn used(resolutions: &Resolutions, i: usize) -> Vec<u64> {
    let mut ids: Vec<u64> = resolutions.modules[i].used_idents.iter().copied().collect();
    ids.sort();
    ids
}

fn at(path: &str) -> Option<Location> {
    Some(Location {
        path: absolute(&[path]),
        display_name: Some(format!("{path}.wesl")),
    })
}

fn error(res: Result<Resolutions, Error>) -> Error {
    match res {
        Ok(_) => panic!("resolved"),
        Err(e) => e,
    }
}

/// main: f uses a, g uses b; a and b import from m1 and m2, which both import c from m3.
fn diamond_root() -> TranslationUnit {
    unit(
        vec![import(10, "a", "m1", false), import(11, "b", "m2", false)],
        vec![
            decl(1, "f", vec![ty(20, "a")]),
            decl(2, "g", vec![ty(21, "b")]),
        ],
    )
}

fn diamond(path: &str) -> Option<TranslationUnit> {
    match path {
        "package::m1" => Some(unit(
            vec![import(110, "c", "m3", false)],
            vec![
                decl(101, "a", vec![ty(120, "c"), ty(121, "helper")]),
                decl(102, "helper", vec![]),
                decl(103, "unused", vec![ty(122, "nothing")]),
            ],
        )),
        "package::m2" => Some(unit(
            vec![import(210, "c", "m3", false)],
            vec![decl(201, "b", vec![ty(220, "c")])],
        )),
        "package::m3" => Some(unit(
            vec![],
            vec![
                decl(301, "c", vec![]),
                decl(302, "d", vec![]),
                const_assert(vec![ty(320, "d")]),
            ],
        )),
        _ => None,
    }
}

#[test]
fn new_resolutions_are_empty() {
    let resolutions = Resolutions::new_uninit();
    assert!(resolutions.modules().is_empty());
    assert!(resolutions.into_module_order().is_empty());
}

#[test]
fn lazy_resolution_loads_what_is_used() {
    let resolver = files(diamond);
    let keep = vec![ident(1, "f")];
    let res = resolve_lazy(&keep, diamond_root(), &absolute(&["main"]), &resolver).unwrap();
    assert_eq!(order(&res), vec!["package::main", "package::m1", "package::m3"]);
    assert_eq!(used(&res, 0), vec![1]);
    assert_eq!(used(&res, 1), vec![101, 102]);
    // d is used by the const_assert
    assert_eq!(used(&res, 2), vec![301, 302]);
    assert_eq!(*resolver.asked.borrow(), vec!["package::m1", "package::m3"]);
}

#[test]
fn lazy_resolution_of_nothing_loads_nothing() {
    let resolver = files(diamond);
    let res = resolve_lazy(&vec![], diamond_root(), &absolute(&["main"]), &resolver).unwrap();
    assert_eq!(order(&res), vec!["package::main"]);
    assert!(used(&res, 0).is_empty());
    assert!(resolver.asked.borrow().is_empty());
}

#[test]
fn eager_resolution_uses_everything_and_loads_once() {
    let resolver = files(diamond);
    let res = resolve_eager(diamond_root(), &absolute(&["main"]), &resolver).unwrap();
    // depth-first: m3 is loaded for m1, before m2
    assert_eq!(
        order(&res),
        vec!["package::main", "package::m1", "package::m3", "package::m2"]
    );
    assert_eq!(used(&res, 0), vec![1, 2]);
    assert_eq!(used(&res, 1), vec![101, 102, 103]);
    assert_eq!(used(&res, 2), vec![301, 302]);
    assert_eq!(used(&res, 3), vec![201]);
    assert_eq!(
        *resolver.asked.borrow(),
        vec!["package::m1", "package::m3", "package::m2"]
    );
    assert_eq!(res.root_path().text(), "package::main");
    assert_eq!(res.root_module().path.text(), "package::main");
    let paths: Vec<String> = res.into_module_order().iter().map(|p| p.text()).collect();
    assert_eq!(
        paths,
        vec!["package::main", "package::m1", "package::m3", "package::m2"]
    );
}

#[test]
fn references_point_at_the_declarations() {
    let res = resolve_eager(diamond_root(), &absolute(&["main"]), &files(diamond)).unwrap();
    let root = &res.modules[0].source.global_declarations;
    assert_eq!(root[0].types[0].ident.id, 101);
    assert_eq!(root[1].types[0].ident.id, 201);
    let m1 = &res.modules[1].source.global_declarations;
    assert_eq!(m1[0].types[0].ident.id, 301);
    assert_eq!(m1[0].types[1].ident.id, 102);
    // neither declared nor imported
    assert_eq!(m1[2].types[0].ident.id, 122);
}

/// Whether every module of `a` is one of `b`, with at least as much used there.
fn within(a: &Resolutions, b: &Resolutions) -> bool {
    a.modules.iter().all(|m| {
        b.modules
            .iter()
            .any(|n| m.path == n.path && m.used_idents.is_subset(&n.used_idents))
    })
}

#[test]
fn lazy_resolution_stays_within_eager_resolution() {
    let path = absolute(&["main"]);
    let eager = resolve_eager(diamond_root(), &path, &files(diamond)).unwrap();
    for keep in [
        vec![],
        vec![ident(1, "f")],
        vec![ident(2, "g")],
        vec![ident(1, "f"), ident(2, "g")],
    ] {
        let lazy = resolve_lazy(&keep, diamond_root(), &path, &files(diamond)).unwrap();
        assert!(within(&lazy, &eager));
    }
    let lazy = resolve_lazy(&vec![], diamond_root(), &path, &files(diamond)).unwrap();
    assert!(!within(&eager, &lazy));
}

#[test]
fn lazy_resolution_grows_with_what_is_kept() {
    let path = absolute(&["main"]);
    let one = vec![ident(2, "g")];
    let both = vec![ident(1, "f"), ident(2, "g")];
    let less = resolve_lazy(&one, diamond_root(), &path, &files(diamond)).unwrap();
    let more = resolve_lazy(&both, diamond_root(), &path, &files(diamond)).unwrap();
    assert_eq!(order(&less), vec!["package::main", "package::m2", "package::m3"]);
    assert!(within(&less, &more));
    assert!(!within(&more, &less));
}

#[test]
fn the_same_answers_lead_to_the_same_end() {
    let path = absolute(&["main"]);
    let keep = vec![ident(1, "f")];
    let a = resolve_lazy(&keep, diamond_root(), &path, &files(diamond)).unwrap();
    let b = resolve_lazy(&keep, diamond_root(), &path, &files(diamond)).unwrap();
    assert_eq!(order(&a), order(&b));
    assert!(within(&a, &b) && within(&b, &a));
}

#[test]
fn unused_declarations_are_not_checked() {
    // g refers to a module that does not exist
    let source = unit(
        vec![import(10, "a", "nowhere", false)],
        vec![decl(1, "f", vec![]), decl(2, "g", vec![ty(20, "a")])],
    );
    let keep = vec![ident(1, "f")];
    let res = resolve_lazy(&keep, source, &absolute(&["main"]), &files(diamond)).unwrap();
    assert_eq!(order(&res), vec!["package::main"]);
    // linked to the import, not retargeted
    assert_eq!(res.modules[0].source.global_declarations[1].types[0].ident.id, 10);
}

#[test]
fn inline_paths_are_resolved() {
    let mut inline = ty(20, "c");
    inline.path = Some(absolute(&["m3"]));
    let source = unit(vec![], vec![decl(1, "f", vec![inline])]);
    let res = resolve_eager(source, &absolute(&["main"]), &files(diamond)).unwrap();
    let found = &res.modules[0].source.global_declarations[0].types[0];
    assert_eq!(found.path, None);
    assert_eq!(found.ident.id, 301);
}

fn reexport(path: &str) -> Option<TranslationUnit> {
    match path {
        "package::m1" => Some(unit(vec![import(110, "c", "m2", true)], vec![])),
        "package::m2" => Some(unit(vec![import(210, "c", "m3", true)], vec![])),
        "package::m3" => Some(unit(vec![], vec![decl(301, "c", vec![])])),
        "package::private" => Some(unit(vec![import(410, "c", "m3", false)], vec![])),
        "package::ring" => Some(unit(vec![import(510, "c", "ring", true)], vec![])),
        _ => None,
    }
}

fn root_importing(from: &str) -> TranslationUnit {
    unit(
        vec![import(10, "c", from, false)],
        vec![decl(1, "f", vec![ty(20, "c")])],
    )
}

#[test]
fn reexports_are_followed() {
    let res = resolve_eager(root_importing("m1"), &absolute(&["main"]), &files(reexport)).unwrap();
    assert_eq!(
        order(&res),
        vec!["package::main", "package::m1", "package::m2", "package::m3"]
    );
    assert_eq!(res.modules[0].source.global_declarations[0].types[0].ident.id, 301);
    assert_eq!(used(&res, 3), vec![301]);
}

#[test]
fn a_kept_reexport_is_followed() {
    let source = unit(vec![import(10, "c", "m3", true)], vec![]);
    let keep = vec![ident(99, "c")];
    let res = resolve_lazy(&keep, source, &absolute(&["main"]), &files(reexport)).unwrap();
    assert_eq!(order(&res), vec!["package::main", "package::m3"]);
    assert_eq!(used(&res, 1), vec![301]);
}

#[test]
fn private_imports_are_blamed_on_their_module() {
    let e = error(resolve_eager(
        root_importing("private"),
        &absolute(&["main"]),
        &files(reexport),
    ));
    assert_eq!(
        e.cause,
        Cause::Import(ImportError::Private("c".to_string(), absolute(&["private"])))
    );
    assert_eq!(e.location, at("private"));
}

#[test]
fn missing_declarations_are_blamed_on_their_module() {
    let source = unit(
        vec![import(10, "missing", "m3", false)],
        vec![decl(1, "f", vec![ty(20, "missing")])],
    );
    let e = error(resolve_eager(source, &absolute(&["main"]), &files(reexport)));
    assert_eq!(
        e.cause,
        Cause::Import(ImportError::MissingDecl(absolute(&["m3"]), "missing".to_string()))
    );
    assert_eq!(e.location, at("m3"));
}

#[test]
fn a_missing_entrypoint_is_blamed_on_the_root() {
    let keep = vec![ident(9, "nothing")];
    let e = error(resolve_lazy(
        &keep,
        root_importing("m1"),
        &absolute(&["main"]),
        &files(reexport),
    ));
    assert_eq!(
        e.cause,
        Cause::Import(ImportError::MissingDecl(absolute(&["main"]), "nothing".to_string()))
    );
    assert_eq!(e.location, at("main"));
}

#[test]
fn resolver_errors_are_blamed_on_the_referencing_module() {
    let e = error(resolve_eager(
        root_importing("nowhere"),
        &absolute(&["main"]),
        &files(reexport),
    ));
    assert_eq!(
        e.cause,
        Cause::Resolve(ResolveError {
            message: "no file for package::nowhere".to_string(),
            location: None,
        })
    );
    assert_eq!(e.location, at("main"));
}

fn broken_reexport(path: &str) -> Option<TranslationUnit> {
    match path {
        "package::m1" => Some(unit(vec![import(110, "c", "nowhere", true)], vec![])),
        _ => None,
    }
}

#[test]
fn a_broken_reexport_is_blamed_on_the_module_that_has_it() {
    let e = error(resolve_eager(
        root_importing("m1"),
        &absolute(&["main"]),
        &files(broken_reexport),
    ));
    assert_eq!(
        e.cause,
        Cause::Resolve(ResolveError {
            message: "no file for package::nowhere".to_string(),
            location: None,
        })
    );
    assert_eq!(e.location, at("m1"));
}

/// A resolver that says itself which module is to blame.
struct Grumpy;

impl Resolver for Grumpy {
    fn resolve_module(&self, path: &ModulePath) -> Result<TranslationUnit, ResolveError> {
        Err(ResolveError {
            message: "syntax error".to_string(),
            location: Some(Location {
                path: path.clone(),
                display_name: None,
            }),
        })
    }

    fn display_name(&self, _path: &ModulePath) -> Option<String> {
        None
    }
}

#[test]
fn a_location_of_the_resolver_is_kept() {
    let e = error(resolve_eager(root_importing("m1"), &absolute(&["main"]), &Grumpy));
    assert_eq!(
        e.location,
        Some(Location {
            path: absolute(&["m1"]),
            display_name: None,
        })
    );
}

#[test]
fn a_ring_of_reexports_reaches_the_limit() {
    let res = load_modules(
        root_importing("ring"),
        &absolute(&["main"]),
        None,
        &files(reexport),
        1000,
    );
    let e = error(res);
    assert_eq!(e.cause, Cause::StepLimit);
    assert_eq!(e.location, None);
}

#[test]
fn the_limit_counts_items() {
    // m1, m2 and m3: three items
    let path = absolute(&["main"]);
    let few = load_modules(root_importing("m1"), &path, None, &files(reexport), 2);
    assert_eq!(error(few).cause, Cause::StepLimit);
    let enough = load_modules(root_importing("m1"), &path, None, &files(reexport), 3).unwrap();
    let more = load_modules(root_importing("m1"), &path, None, &files(reexport), 30).unwrap();
    assert_eq!(order(&enough), order(&more));
    assert_eq!(order(&enough).len(), 4);
}

#[test]
fn a_ring_of_imports_means_nothing() {
    let path = absolute(&["ring"]);
    let source = unit(vec![import(510, "c", "ring", true)], vec![]);
    let mut resolutions = Resolutions::new_uninit();
    wesl_import::load::init_module(source, &path, &mut resolutions);
    assert!(find_ext_ident(&resolutions, &path, &ident(1, "c")).is_none());
    assert!(find_ext_ident(&resolutions, &absolute(&["nowhere"]), &ident(1, "c")).is_none());
}

fn cyclic(path: &str) -> Option<TranslationUnit> {
    match path {
        "package::other" => Some(unit(
            vec![import(110, "g", "main", false)],
            vec![decl(101, "h", vec![ty(120, "g")])],
        )),
        _ => None,
    }
}

#[test]
fn modules_can_import_each_other() {
    let source = unit(
        vec![import(10, "h", "other", false)],
        vec![decl(1, "f", vec![ty(20, "h")]), decl(2, "g", vec![])],
    );
    let keep = vec![ident(1, "f")];
    let res = resolve_lazy(&keep, source, &absolute(&["main"]), &files(cyclic)).unwrap();
    assert_eq!(order(&res), vec!["package::main", "package::other"]);
    assert_eq!(used(&res, 0), vec![1, 2]);
    assert_eq!(res.modules[1].source.global_declarations[0].types[0].ident.id, 2);
}

#[test]
fn a_path_to_the_own_module_is_retargeted() {
    let mut own = ty(20, "g");
    own.path = Some(absolute(&["main"]));
    let source = unit(vec![], vec![decl(1, "f", vec![own]), decl(2, "g", vec![])]);
    let keep = vec![ident(1, "f")];
    let res = resolve_lazy(&keep, source, &absolute(&["main"]), &files(cyclic)).unwrap();
    let found = &res.modules[0].source.global_declarations[0].types[0];
    assert_eq!(found.path, None);
    assert_eq!(found.ident.id, 2);
    // such a reference makes nothing used
    assert_eq!(used(&res, 0), vec![1]);
    assert_eq!(res.assemble(true).global_declarations.len(), 1);
}

#[test]
fn a_path_to_the_own_module_stays_in_the_output_when_eager() {
    let mut own = ty(20, "g");
    own.path = Some(absolute(&["main"]));
    let source = unit(vec![], vec![decl(1, "f", vec![own]), decl(2, "g", vec![])]);
    let res = resolve_eager(source, &absolute(&["main"]), &files(cyclic)).unwrap();
    let output = res.assemble(true);
    assert_eq!(output.global_declarations.len(), 2);
    assert_eq!(output.global_declarations[0].types[0].ident.id, 2);
}
