use wesl_import::error::ImportError;
use wesl_import::imports::ImportedItem;
use wesl_import::link::retarget_idents;
use wesl_import::module::Module;
use wesl_import::syntax::{
    DeclarationKind, GlobalDeclaration, Ident, ModulePath, PathOrigin, TranslationUnit,
    TypeExpression,
};
use wesl_import::usage::{module_entrypoints, type_exprs, used_idents, Entrypoint, ExtItem};

fn absolute(components: &[&str]) -> ModulePath {
    ModulePath::new(
        PathOrigin::Absolute,
        components.iter().map(|s| s.to_string()).collect(),
    )
}

fn ident(id: u64, name: &str) -> Ident {
    Ident {
        id,
        name: name.to_string(),
    }
}

fn ty(id: u64, name: &str, nested: Vec<TypeExpression>) -> TypeExpression {
    TypeExpression {
        path: None,
        ident: ident(id, name),
        local: false,
        nested,
    }
}

fn ty_at(path: ModulePath, id: u64, name: &str) -> TypeExpression {
    TypeExpression {
        path: Some(path),
        ident: ident(id, name),
        local: false,
        nested: vec![],
    }
}

fn decl(id: u64, name: &str, types: Vec<TypeExpression>) -> GlobalDeclaration {
    GlobalDeclaration {
        kind: DeclarationKind::Named(ident(id, name)),
        types,
        node: id,
    }
}

fn const_assert(types: Vec<TypeExpression>) -> GlobalDeclaration {
    GlobalDeclaration {
        kind: DeclarationKind::ConstAssert,
        types,
        node: 0,
    }
}

fn void() -> GlobalDeclaration {
    GlobalDeclaration {
        kind: DeclarationKind::Void,
        types: vec![],
        node: 0,
    }
}

fn module(decls: Vec<GlobalDeclaration>) -> Module {
    let source = TranslationUnit {
        imports: vec![],
        global_directives: vec![],
        global_declarations: decls,
    };
    Module::new(source, absolute(&["main"]))
}

fn with_import(mut module: Module, id: u64, name: &str, path: ModulePath, public: bool) -> Module {
    let item = ImportedItem {
        path,
        ident: ident(id + 1000, &format!("{name}_there")),
        public,
    };
    module.imports.push((ident(id, name), item));
    module
}

fn items(res: Vec<ExtItem>) -> Vec<(String, String, String)> {
    res.iter()
        .map(|item| (item.from.text(), item.path.text(), item.ident.name.clone()))
        .collect()
}

fn triple(from: &str, path: &str, name: &str) -> (String, String, String) {
    (from.to_string(), path.to_string(), name.to_string())
}

fn used(module: &Module) -> Vec<u64> {
    let mut ids: Vec<u64> = module.used_idents.iter().copied().collect();
    ids.sort();
    ids
}

#[test]
fn nested_types_come_before_the_containing_one() {
    // a<b<c>, d>, e
    let d = decl(
        1,
        "x",
        vec![
            ty(2, "a", vec![ty(3, "b", vec![ty(4, "c", vec![])]), ty(5, "d", vec![])]),
            ty(6, "e", vec![]),
        ],
    );
    let names: Vec<String> = type_exprs(&d).iter().map(|t| t.ident.name.clone()).collect();
    assert_eq!(names, vec!["c", "b", "d", "a", "e"]);
}

#[test]
fn entrypoints_of_a_module() {
    let m = module(vec![
        decl(1, "f", vec![]),
        const_assert(vec![]),
        void(),
        decl(2, "g", vec![]),
    ]);
    let lazy = module_entrypoints(&m, false);
    assert_eq!(lazy.len(), 1);
    assert!(matches!(lazy[0], Entrypoint::Decl(1)));
    let eager = module_entrypoints(&m, true);
    assert_eq!(eager.len(), 4);
    assert!(matches!(&eager[0], Entrypoint::Ident(i) if i.id == 1));
    assert!(matches!(eager[1], Entrypoint::Decl(1)));
    assert!(matches!(eager[2], Entrypoint::Decl(2)));
    assert!(matches!(&eager[3], Entrypoint::Ident(i) if i.id == 2));
}

#[test]
fn usage_is_transitive_and_no_more() {
    // f -> g -> h, and k is not reached
    let mut m = module(vec![
        decl(1, "f", vec![ty(2, "g", vec![])]),
        decl(2, "g", vec![ty(3, "h", vec![]), ty(9, "vec3", vec![])]),
        decl(3, "h", vec![ty(1, "f", vec![])]),
        decl(4, "k", vec![ty(1, "f", vec![])]),
    ]);
    let res = used_idents(&mut m, &vec![Entrypoint::Ident(ident(1, "f"))]);
    assert!(res.unwrap().is_empty());
    assert_eq!(used(&m), vec![1, 2, 3]);
}

#[test]
fn entrypoints_are_found_by_name() {
    let mut m = module(vec![decl(1, "f", vec![])]);
    used_idents(&mut m, &vec![Entrypoint::Ident(ident(77, "f"))]).unwrap();
    assert_eq!(used(&m), vec![1]);
}

#[test]
fn external_items_come_in_encounter_order() {
    // f: a<b>, g; g: c
    let m = module(vec![
        decl(
            1,
            "f",
            vec![
                ty(10, "a", vec![ty(11, "b", vec![])]),
                ty(2, "g", vec![]),
                ty_at(absolute(&["inline"]), 13, "d"),
            ],
        ),
        decl(2, "g", vec![ty(12, "c", vec![])]),
    ]);
    let m = with_import(m, 10, "a", absolute(&["m1"]), false);
    let m = with_import(m, 11, "b", absolute(&["m2"]), false);
    let mut m = with_import(m, 12, "c", absolute(&["m3"]), false);
    let res = used_idents(&mut m, &vec![Entrypoint::Ident(ident(1, "f"))]).unwrap();
    assert_eq!(
        items(res),
        vec![
            triple("package::main", "package::m2", "b_there"),
            triple("package::main", "package::m1", "a_there"),
            triple("package::main", "package::m3", "c_there"),
            triple("package::main", "package::inline", "d"),
        ]
    );
}

#[test]
fn used_declarations_are_skipped_the_second_time() {
    let m = module(vec![decl(1, "f", vec![ty(10, "a", vec![])])]);
    let mut m = with_import(m, 10, "a", absolute(&["m1"]), false);
    let entries = vec![Entrypoint::Ident(ident(1, "f"))];
    assert_eq!(used_idents(&mut m, &entries).unwrap().len(), 1);
    assert_eq!(used_idents(&mut m, &entries).unwrap().len(), 0);
    assert_eq!(used(&m), vec![1]);
}

#[test]
fn analyses_add_up() {
    let make = || {
        let m = module(vec![
            decl(1, "f", vec![ty(10, "a", vec![]), ty(3, "h", vec![])]),
            decl(2, "g", vec![ty(3, "h", vec![]), ty(11, "b", vec![])]),
            decl(3, "h", vec![ty(12, "c", vec![])]),
        ]);
        let m = with_import(m, 10, "a", absolute(&["m1"]), false);
        let m = with_import(m, 11, "b", absolute(&["m2"]), false);
        with_import(m, 12, "c", absolute(&["m3"]), false)
    };
    let f = || Entrypoint::Ident(ident(1, "f"));
    let g = || Entrypoint::Ident(ident(2, "g"));
    let mut both = make();
    let all = items(used_idents(&mut both, &vec![f(), g()]).unwrap());
    let mut split = make();
    let mut parts = items(used_idents(&mut split, &vec![f()]).unwrap());
    parts.extend(items(used_idents(&mut split, &vec![g()]).unwrap()));
    assert_eq!(all, parts);
    assert_eq!(
        all,
        vec![
            triple("package::main", "package::m1", "a_there"),
            triple("package::main", "package::m3", "c_there"),
            triple("package::main", "package::m2", "b_there"),
        ]
    );
    assert_eq!(used(&both), used(&split));
}

#[test]
fn a_public_import_can_be_asked_for() {
    let m = with_import(module(vec![]), 10, "a", absolute(&["m1"]), true);
    let mut m = m;
    let res = used_idents(&mut m, &vec![Entrypoint::Ident(ident(99, "a"))]).unwrap();
    assert_eq!(items(res), vec![triple("package::main", "package::m1", "a_there")]);
}

#[test]
fn a_private_import_cannot_be_asked_for() {
    let mut m = with_import(module(vec![]), 10, "a", absolute(&["m1"]), false);
    let err = used_idents(&mut m, &vec![Entrypoint::Ident(ident(99, "a"))]).unwrap_err();
    assert_eq!(err, ImportError::Private("a".to_string(), absolute(&["main"])));
}

#[test]
fn a_missing_declaration_is_an_error() {
    let mut m = module(vec![]);
    let err = used_idents(&mut m, &vec![Entrypoint::Ident(ident(1, "a"))]).unwrap_err();
    assert_eq!(err, ImportError::MissingDecl(absolute(&["main"]), "a".to_string()));
}

#[test]
fn a_path_to_the_module_itself_marks_nothing() {
    let mut m = module(vec![
        decl(1, "f", vec![ty_at(absolute(&["main"]), 2, "g")]),
        decl(2, "g", vec![]),
    ]);
    let res = used_idents(&mut m, &vec![Entrypoint::Ident(ident(1, "f"))]).unwrap();
    assert!(res.is_empty());
    assert_eq!(used(&m), vec![1]);
}

#[test]
fn a_path_to_the_module_itself_has_to_exist() {
    let mut m = module(vec![decl(1, "f", vec![ty_at(absolute(&["main"]), 2, "g")])]);
    let err = used_idents(&mut m, &vec![Entrypoint::Ident(ident(1, "f"))]).unwrap_err();
    assert_eq!(err, ImportError::MissingDecl(absolute(&["main"]), "g".to_string()));
}

#[test]
fn linking_finds_declarations_and_imports_by_name() {
    let mut local = ty(22, "g", vec![]);
    local.local = true;
    let m = module(vec![
        decl(
            1,
            "f",
            vec![ty(20, "g", vec![ty(21, "a", vec![])]), local, ty(23, "vec3", vec![])],
        ),
        decl(2, "g", vec![]),
    ]);
    let mut m = with_import(m, 10, "a", absolute(&["m1"]), false);
    retarget_idents(&mut m.source.global_declarations, &m.idents, &m.imports);
    let types = &m.source.global_declarations[0].types;
    assert_eq!(types[0].ident.id, 2);
    assert_eq!(types[0].nested[0].ident.id, 10);
    assert_eq!(types[1].ident.id, 22);
    assert_eq!(types[2].ident.id, 23);
}
