use wesl_import::load::init_module;
use wesl_import::mangle::{ask_names, mangle_decls, Mangler};
use wesl_import::resolutions::Resolutions;
use wesl_import::retarget::find_ext_ident;
use wesl_import::syntax::{
    Attribute, DeclarationKind, DiagnosticSeverity, DirectiveKind, GlobalDeclaration,
    GlobalDirective, Ident, ImportContent, ImportItem, ImportStatement, ModulePath, PathOrigin,
    TranslationUnit, TypeExpression,
};

fn absolute(components: &[&str]) -> ModulePath {
    ModulePath::new(
        PathOrigin::Absolute,
        components.iter().map(|s| s.to_string()).collect(),
    )
}

fn ident(id: u64, name: &str) -> Ident {
    Ident {
        id,
        name: name.to_string(),
    }
}

fn ty(id: u64, name: &str) -> TypeExpression {
    TypeExpression {
        path: None,
        ident: ident(id, name),
        local: false,
        nested: vec![],
    }
}

fn decl(id: u64, name: &str, types: Vec<TypeExpression>) -> GlobalDeclaration {
    GlobalDeclaration {
        kind: DeclarationKind::Named(ident(id, name)),
        types,
        node: id,
    }
}

fn unnamed(kind: DeclarationKind, node: u64) -> GlobalDeclaration {
    GlobalDeclaration {
        kind,
        types: vec![],
        node,
    }
}

fn enable(name: &str) -> GlobalDirective {
    GlobalDirective {
        attributes: vec![],
        kind: DirectiveKind::Enable(vec![name.to_string()]),
    }
}

/// main declares f, g, a const_assert and a void; other declares h. f uses h.
fn two_modules() -> Resolutions {
    let mut resolutions = Resolutions::new_uninit();
    let main = TranslationUnit {
        imports: vec![ImportStatement {
            attributes: vec![],
            path: Some(absolute(&["other"])),
            content: ImportContent::Item(ImportItem {
                ident: ident(10, "h"),
                rename: Some(ident(11, "k")),
            }),
        }],
        global_directives: vec![enable("f16"), enable("f16"), enable("subgroups")],
        global_declarations: vec![
            decl(1, "f", vec![ty(20, "k"), ty(21, "g")]),
            decl(2, "g", vec![]),
            unnamed(DeclarationKind::ConstAssert, 3),
            unnamed(DeclarationKind::Void, 4),
        ],
    };
    init_module(main, &absolute(&["main"]), &mut resolutions);
    let other = TranslationUnit {
        imports: vec![],
        global_directives: vec![enable("subgroups"), enable("f16")],
        global_declarations: vec![decl(101, "h", vec![ty(120, "h")]), decl(102, "i", vec![])],
    };
    init_module(other, &absolute(&["other"]), &mut resolutions);
    resolutions.modules[0].used_idents.insert(1);
    resolutions.modules[1].used_idents.insert(101);
    resolutions
}

fn nodes(unit: &TranslationUnit) -> Vec<u64> {
    unit.global_declarations.iter().map(|d| d.node).collect()
}

fn name(decl: &GlobalDeclaration) -> String {
    decl.ident().unwrap().name.clone()
}

#[test]
fn assembling_without_stripping_keeps_everything() {
    let unit = two_modules().assemble(false);
    assert_eq!(nodes(&unit), vec![1, 2, 3, 4, 101, 102]);
    assert!(unit.imports.is_empty());
}

#[test]
fn stripping_keeps_used_declarations_and_const_asserts() {
    let unit = two_modules().assemble(true);
    assert_eq!(nodes(&unit), vec![1, 3, 101]);
}

#[test]
fn directives_are_deduplicated_in_a_row() {
    let unit = two_modules().assemble(true);
    assert_eq!(
        unit.global_directives,
        vec![enable("f16"), enable("subgroups"), enable("f16")]
    );
}

#[test]
fn equality_of_directives() {
    let warn = |rule: &str| GlobalDirective {
        attributes: vec![],
        kind: DirectiveKind::Diagnostic(DiagnosticSeverity::Warning, rule.to_string()),
    };
    assert!(warn("a").equals(&warn("a")));
    assert!(!warn("a").equals(&warn("b")));
    assert!(!warn("a").equals(&enable("a")));
    let requires = GlobalDirective {
        attributes: vec![],
        kind: DirectiveKind::Requires(vec!["a".to_string()]),
    };
    assert!(!requires.equals(&enable("a")));
    let mut attributed = enable("a");
    attributed.attributes = vec![Attribute::Other(1)];
    assert!(!attributed.equals(&enable("a")));
}

#[test]
fn retargeting_replaces_used_references() {
    let resolutions = two_modules().retarget().unwrap();
    let f = &resolutions.modules[0].source.global_declarations[0];
    assert_eq!(f.types[0].ident.id, 101);
    assert_eq!(f.types[0].ident.name, "h");
    assert_eq!(f.types[1].ident.id, 2);
}

#[test]
fn retargeting_twice_changes_nothing() {
    let once = two_modules().retarget().unwrap();
    let before = format!("{:?}", once.modules[0].source);
    let other = format!("{:?}", once.modules[1].source);
    let twice = once.retarget().unwrap();
    assert_eq!(format!("{:?}", twice.modules[0].source), before);
    assert_eq!(format!("{:?}", twice.modules[1].source), other);
}

#[test]
fn retargeting_reports_what_is_missing() {
    let mut resolutions = two_modules();
    resolutions.modules.truncate(1);
    resolutions.order.truncate(1);
    let e = resolutions.retarget().unwrap_err();
    assert_eq!(e.message(), "module `package::other` has no declaration `h`");
}

#[test]
fn declarations_are_found_across_modules() {
    let resolutions = two_modules();
    let other = absolute(&["other"]);
    let found = find_ext_ident(&resolutions, &other, &ident(999, "i")).unwrap();
    assert_eq!(found.id, 102);
    let main = absolute(&["main"]);
    let found = find_ext_ident(&resolutions, &main, &ident(999, "k")).unwrap();
    assert_eq!(found.id, 101);
    assert!(find_ext_ident(&resolutions, &other, &ident(999, "zzz")).is_none());
}

struct Suffix;

impl Mangler for Suffix {
    fn mangle(&self, path: &ModulePath, item: &str) -> String {
        format!("{}_{}", path.components.join("_"), item)
    }
}

#[test]
fn mangling_renames_declarations_and_their_references() {
    let mut resolutions = two_modules().retarget().unwrap();
    resolutions.mangle(&Suffix, true);
    let main = &resolutions.modules[0].source.global_declarations;
    assert_eq!(name(&main[0]), "main_f");
    assert_eq!(name(&main[1]), "main_g");
    assert_eq!(main[0].types[0].ident.name, "other_h");
    assert_eq!(main[0].types[1].ident.name, "main_g");
    let other = &resolutions.modules[1].source.global_declarations;
    assert_eq!(name(&other[0]), "other_h");
    assert_eq!(other[0].types[0].ident.name, "other_h");
    assert_eq!(name(&other[1]), "other_i");
}

#[test]
fn mangling_can_spare_the_root() {
    let mut resolutions = two_modules().retarget().unwrap();
    resolutions.mangle(&Suffix, false);
    let main = &resolutions.modules[0].source.global_declarations;
    assert_eq!(name(&main[0]), "f");
    assert_eq!(name(&main[1]), "g");
    assert_eq!(main[0].types[0].ident.name, "other_h");
    assert_eq!(main[0].types[1].ident.name, "g");
    assert_eq!(resolutions.modules[0].idents[0].0.name, "f");
    assert_eq!(resolutions.modules[1].idents[0].0.name, "other_h");
}

#[test]
fn new_names_are_asked_for_in_source_order() {
    let unit = two_modules().assemble(false);
    let mut renames = vec![(7, "kept".to_string())];
    ask_names(&unit, &absolute(&["m"]), &Suffix, &mut renames);
    assert_eq!(
        renames,
        vec![
            (7, "kept".to_string()),
            (1, "m_f".to_string()),
            (2, "m_g".to_string()),
            (101, "m_h".to_string()),
            (102, "m_i".to_string()),
        ]
    );
}

#[test]
fn a_lone_syntax_tree_can_be_mangled() {
    let mut unit = two_modules().retarget().unwrap().assemble(false);
    mangle_decls(&mut unit, &absolute(&["m"]), &Suffix);
    assert_eq!(name(&unit.global_declarations[0]), "m_f");
    assert_eq!(name(&unit.global_declarations[4]), "m_h");
    // references follow
    assert_eq!(unit.global_declarations[0].types[0].ident.name, "m_h");
    assert_eq!(unit.global_declarations[0].types[1].ident.name, "m_g");
}

#[test]
fn a_lone_syntax_tree_can_be_renamed() {
    let mut unit = two_modules().modules.remove(0).source;
    unit.rename(&vec![(2, "x".to_string()), (10, "y".to_string())]);
    assert_eq!(name(&unit.global_declarations[1]), "x");
    assert_eq!(unit.global_declarations[0].types[1].ident.name, "x");
    match &unit.imports[0].content {
        ImportContent::Item(item) => assert_eq!(item.ident.name, "y"),
        ImportContent::Collection(_) => panic!("an item"),
    }
}

#[test]
fn the_last_renaming_counts() {
    let renames = vec![
        (1, "a".to_string()),
        (2, "b".to_string()),
        (1, "c".to_string()),
    ];
    assert_eq!(ident(1, "x").renamed(&renames).name, "c");
    assert_eq!(ident(2, "x").renamed(&renames).name, "b");
    assert_eq!(ident(3, "x").renamed(&renames).name, "x");
    let mut resolutions = two_modules();
    resolutions.rename(&renames);
    assert_eq!(name(&resolutions.modules[0].source.global_declarations[0]), "c");
}

#[test]
fn the_output_refers_to_nothing_outside() {
    let mut resolutions = two_modules();
    resolutions.modules[0].used_idents.insert(2);
    let unit = resolutions.retarget().unwrap().assemble(true);
    let declared: Vec<u64> = unit
        .global_declarations
        .iter()
        .filter_map(|d| d.ident().map(|i| i.id))
        .collect();
    assert_eq!(declared, vec![1, 2, 101]);
    for d in &unit.global_declarations {
        for t in &d.types {
            assert!(t.path.is_none());
            assert!(declared.contains(&t.ident.id));
        }
    }
}
