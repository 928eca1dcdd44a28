//! The part of a module's syntax tree that import resolution reads and rewrites.
//!
//! A module is a list of import statements, directives and declarations. Of a
//! declaration only its kind, its identifier and the type expressions inside it matter
//! here; `node` is the front end's own number for the rest of the declaration.
//!
//! Every type has a view: the same value with sequences for vectors and strings.
use crate::views::{group_views, opt_view, views};
use vstd::prelude::*;

verus! {

broadcast use group_views;

/// An occurrence of an identifier.
///
/// Occurrences of the same identifier carry the same `id`, whatever its name is.
/// Distinct identifiers may have the same name.
#[derive(Debug)]
pub struct Ident {
    pub id: u64,
    pub name: String,
}

pub ghost struct IdentView {
    pub id: u64,
    pub name: Seq<char>,
}

impl View for Ident {
    type V = IdentView;

    open spec fn view(&self) -> IdentView {
        IdentView { id: self.id, name: self.name@ }
    }
}

impl Clone for Ident {
    fn clone(&self) -> (res: Self)
        ensures
            res@ == self@,
    {
        Ident { id: self.id, name: self.name.clone() }
    }
}

/// Where a module path starts.
#[derive(Debug, PartialEq, Eq)]
pub enum PathOrigin {
    /// The root of the current package, written `package::`.
    Absolute,
    /// The current module, or the ancestor reached by this many `super`s.
    Relative(usize),
    /// The root of the named package.
    Package(String),
}

pub ghost enum OriginView {
    Absolute,
    Relative(nat),
    Package(Seq<char>),
}

impl View for PathOrigin {
    type V = OriginView;

    open spec fn view(&self) -> OriginView {
        match self {
            PathOrigin::Absolute => OriginView::Absolute,
            PathOrigin::Relative(n) => OriginView::Relative(*n as nat),
            PathOrigin::Package(name) => OriginView::Package(name@),
        }
    }
}

impl Clone for PathOrigin {
    fn clone(&self) -> (res: Self)
        ensures
            res@ == self@,
    {
        match self {
            PathOrigin::Absolute => PathOrigin::Absolute,
            PathOrigin::Relative(n) => PathOrigin::Relative(*n),
            PathOrigin::Package(name) => PathOrigin::Package(name.clone()),
        }
    }
}

/// The path of a module.
#[derive(Debug, PartialEq, Eq)]
pub struct ModulePath {
    pub origin: PathOrigin,
    pub components: Vec<String>,
}

pub ghost struct PathView {
    pub origin: OriginView,
    pub components: Seq<Seq<char>>,
}

impl View for ModulePath {
    type V = PathView;

    open spec fn view(&self) -> PathView {
        PathView { origin: self.origin@, components: views(self.components@) }
    }
}

/// Copies a vector of strings.
pub fn clone_strings(strings: &Vec<String>) -> (res: Vec<String>)
    ensures
        views(res@) == views(strings@),
{
    let mut res: Vec<String> = Vec::new();
    let mut i: usize = 0;
    while i < strings.len()
        invariant
            i <= strings@.len(),
            views(res@) == views(strings@).take(i as int),
        decreases strings@.len() - i,
    {
        res.push(strings[i].clone());
        assert(views(res@) == views(strings@).take(i + 1));
        i += 1;
    }
    assert(views(strings@).take(i as int) == views(strings@));
    res
}

impl Clone for ModulePath {
    fn clone(&self) -> (res: Self)
        ensures
            res@ == self@,
    {
        ModulePath { origin: self.origin.clone(), components: clone_strings(&self.components) }
    }
}

/// An attribute in front of an import statement or a directive.
///
/// Only `@publish` has a meaning here. Every other attribute is a number of the front
/// end's choosing, the same for equal attributes.
#[derive(Clone, Copy, Debug, PartialEq, Eq, Structural)]
pub enum Attribute {
    Publish,
    Other(u64),
}

/// What an import ends in: one item, or several imports in braces.
#[derive(Debug)]
pub enum ImportContent {
    Item(ImportItem),
    Collection(Vec<Import>),
}

/// The item at the end of an import, with its new name after `as`.
#[derive(Debug)]
pub struct ImportItem {
    pub ident: Ident,
    pub rename: Option<Ident>,
}

/// An import inside a collection: path components, then the content.
#[derive(Debug)]
pub struct Import {
    pub path: Vec<String>,
    pub content: ImportContent,
}

/// An import statement.
#[derive(Debug)]
pub struct ImportStatement {
    pub attributes: Vec<Attribute>,
    pub path: Option<ModulePath>,
    pub content: ImportContent,
}

pub ghost struct ImportItemView {
    pub ident: IdentView,
    pub rename: Option<IdentView>,
}

pub ghost enum ContentView {
    Item(ImportItemView),
    Collection(Seq<ImportView>),
}

pub ghost struct ImportView {
    pub path: Seq<Seq<char>>,
    pub content: ContentView,
}

pub ghost struct StatementView {
    pub attributes: Seq<Attribute>,
    pub path: Option<PathView>,
    pub content: ContentView,
}

impl View for ImportItem {
    type V = ImportItemView;

    open spec fn view(&self) -> ImportItemView {
        ImportItemView { ident: self.ident@, rename: opt_view(self.rename) }
    }
}

impl ImportContent {
    pub open spec fn model(self) -> ContentView
        decreases self,
    {
        match self {
            ImportContent::Item(item) => ContentView::Item(item@),
            ImportContent::Collection(imports) => ContentView::Collection(
                Seq::new(
                    imports@.len(),
                    |i: int|
                        if 0 <= i < imports@.len() {
                            imports@[i].model()
                        } else {
                            arbitrary()
                        },
                ),
            ),
        }
    }
}

impl Import {
    pub open spec fn model(self) -> ImportView
        decreases self,
    {
        ImportView { path: views(self.path@), content: self.content.model() }
    }
}

impl View for ImportContent {
    type V = ContentView;

    open spec fn view(&self) -> ContentView {
        self.model()
    }
}

impl View for Import {
    type V = ImportView;

    open spec fn view(&self) -> ImportView {
        self.model()
    }
}

impl View for ImportStatement {
    type V = StatementView;

    open spec fn view(&self) -> StatementView {
        StatementView {
            attributes: self.attributes@,
            path: opt_view(self.path),
            content: self.content@,
        }
    }
}

/// A type expression: a reference to a type, a function or a value.
///
/// `local` marks an identifier that is bound inside the enclosing function, so that it
/// cannot mean anything at module scope. `nested` holds the type expressions that occur
/// inside this one, in source order.
#[derive(Debug)]
pub struct TypeExpression {
    pub path: Option<ModulePath>,
    pub ident: Ident,
    pub local: bool,
    pub nested: Vec<TypeExpression>,
}

pub ghost struct TypeView {
    pub path: Option<PathView>,
    pub ident: IdentView,
    pub local: bool,
    pub nested: Seq<TypeView>,
}

impl TypeExpression {
    pub open spec fn model(self) -> TypeView
        decreases self,
    {
        TypeView {
            path: opt_view(self.path),
            ident: self.ident@,
            local: self.local,
            nested: Seq::new(
                self.nested@.len(),
                |i: int|
                    if 0 <= i < self.nested@.len() {
                        self.nested@[i].model()
                    } else {
                        arbitrary()
                    },
            ),
        }
    }
}

impl View for TypeExpression {
    type V = TypeView;

    open spec fn view(&self) -> TypeView {
        self.model()
    }
}

impl Clone for TypeExpression {
    fn clone(&self) -> (res: Self)
        ensures
            res@ == self@,
        decreases self,
    {
        let mut nested: Vec<TypeExpression> = Vec::new();
        let mut i: usize = 0;
        while i < self.nested.len()
            invariant
                i <= self.nested@.len(),
                nested@.len() == i,
                forall|j: int| 0 <= j < i ==> (#[trigger] nested@[j])@ == self.nested@[j]@,
            decreases self.nested@.len() - i,
        {
            nested.push((&self.nested[i]).clone());
            i += 1;
        }
        let path = match &self.path {
            Some(path) => Some(path.clone()),
            None => None,
        };
        let res = TypeExpression { path, ident: self.ident.clone(), local: self.local, nested };
        assert(res@.nested =~= self@.nested);
        res
    }
}

/// What kind of declaration a module-scope declaration is.
#[derive(Debug)]
pub enum DeclarationKind {
    /// A lone semicolon.
    Void,
    /// A declaration that gives this identifier a meaning.
    Named(Ident),
    /// A `const_assert`.
    ConstAssert,
}

pub ghost enum KindView {
    Void,
    Named(IdentView),
    ConstAssert,
}

impl View for DeclarationKind {
    type V = KindView;

    open spec fn view(&self) -> KindView {
        match self {
            DeclarationKind::Void => KindView::Void,
            DeclarationKind::Named(ident) => KindView::Named(ident@),
            DeclarationKind::ConstAssert => KindView::ConstAssert,
        }
    }
}

/// A declaration at module scope.
///
/// `types` holds the outermost type expressions of the declaration, in source order.
#[derive(Debug)]
pub struct GlobalDeclaration {
    pub kind: DeclarationKind,
    pub types: Vec<TypeExpression>,
    pub node: u64,
}

pub ghost struct DeclView {
    pub kind: KindView,
    pub types: Seq<TypeView>,
    pub node: u64,
}

impl View for GlobalDeclaration {
    type V = DeclView;

    open spec fn view(&self) -> DeclView {
        DeclView { kind: self.kind@, types: views(self.types@), node: self.node }
    }
}

impl Clone for DeclarationKind {
    fn clone(&self) -> (res: Self)
        ensures
            res@ == self@,
    {
        match self {
            DeclarationKind::Void => DeclarationKind::Void,
            DeclarationKind::Named(ident) => DeclarationKind::Named(ident.clone()),
            DeclarationKind::ConstAssert => DeclarationKind::ConstAssert,
        }
    }
}

impl Clone for GlobalDeclaration {
    fn clone(&self) -> (res: Self)
        ensures
            res@ == self@,
    {
        let mut types: Vec<TypeExpression> = Vec::new();
        let mut i: usize = 0;
        while i < self.types.len()
            invariant
                i <= self.types@.len(),
                views(types@) == self@.types.take(i as int),
            decreases self.types@.len() - i,
        {
            types.push(self.types[i].clone());
            assert(views(types@) =~= self@.types.take(i + 1));
            i += 1;
        }
        assert(self@.types.take(i as int) =~= self@.types);
        GlobalDeclaration { kind: self.kind.clone(), types, node: self.node }
    }
}

impl DeclView {
    /// The identifier that the declaration declares.
    pub open spec fn ident(self) -> Option<IdentView> {
        match self.kind {
            KindView::Named(ident) => Some(ident),
            _ => None,
        }
    }

    /// Whether the declaration declares the identifier numbered `id`.
    pub open spec fn declares(self, id: u64) -> bool {
        self.ident() matches Some(ident) && ident.id == id
    }
}

impl GlobalDeclaration {
    /// The identifier that the declaration declares, if it has one.
    pub fn ident(&self) -> (res: Option<&Ident>)
        ensures
            opt_view(res) == self@.ident(),
    {
        match &self.kind {
            DeclarationKind::Named(ident) => Some(ident),
            _ => None,
        }
    }

    /// Whether the declaration is a `const_assert`.
    pub fn is_const_assert(&self) -> (res: bool)
        ensures
            res == (self@.kind is ConstAssert),
    {
        match &self.kind {
            DeclarationKind::ConstAssert => true,
            _ => false,
        }
    }
}

/// The severity in a diagnostic directive.
#[derive(Clone, Copy, Debug, PartialEq, Eq, Structural)]
pub enum DiagnosticSeverity {
    Error,
    Warning,
    Info,
    Off,
}

/// What a directive at the top of a module says.
#[derive(Debug, PartialEq, Eq)]
pub enum DirectiveKind {
    Diagnostic(DiagnosticSeverity, String),
    Enable(Vec<String>),
    Requires(Vec<String>),
}

/// A directive at the top of a module.
#[derive(Debug, PartialEq, Eq)]
pub struct GlobalDirective {
    pub attributes: Vec<Attribute>,
    pub kind: DirectiveKind,
}

pub ghost enum DirectiveKindView {
    Diagnostic(DiagnosticSeverity, Seq<char>),
    Enable(Seq<Seq<char>>),
    Requires(Seq<Seq<char>>),
}

pub ghost struct DirectiveView {
    pub attributes: Seq<Attribute>,
    pub kind: DirectiveKindView,
}

impl View for DirectiveKind {
    type V = DirectiveKindView;

    open spec fn view(&self) -> DirectiveKindView {
        match self {
            DirectiveKind::Diagnostic(severity, rule) => DirectiveKindView::Diagnostic(
                *severity,
                rule@,
            ),
            DirectiveKind::Enable(names) => DirectiveKindView::Enable(views(names@)),
            DirectiveKind::Requires(names) => DirectiveKindView::Requires(views(names@)),
        }
    }
}

impl View for GlobalDirective {
    type V = DirectiveView;

    open spec fn view(&self) -> DirectiveView {
        DirectiveView { attributes: self.attributes@, kind: self.kind@ }
    }
}

impl Clone for DirectiveKind {
    fn clone(&self) -> (res: Self)
        ensures
            res@ == self@,
    {
        match self {
            DirectiveKind::Diagnostic(severity, rule) => DirectiveKind::Diagnostic(
                *severity,
                rule.clone(),
            ),
            DirectiveKind::Enable(names) => DirectiveKind::Enable(clone_strings(names)),
            DirectiveKind::Requires(names) => DirectiveKind::Requires(clone_strings(names)),
        }
    }
}

impl Clone for GlobalDirective {
    fn clone(&self) -> (res: Self)
        ensures
            res@ == self@,
    {
        let mut attributes: Vec<Attribute> = Vec::new();
        let mut i: usize = 0;
        while i < self.attributes.len()
            invariant
                i <= self.attributes@.len(),
                attributes@ == self.attributes@.take(i as int),
            decreases self.attributes@.len() - i,
        {
            attributes.push(self.attributes[i]);
            assert(attributes@ =~= self.attributes@.take(i + 1));
            i += 1;
        }
        assert(self.attributes@.take(i as int) =~= self.attributes@);
        GlobalDirective { attributes, kind: self.kind.clone() }
    }
}

/// A module's syntax tree.
#[derive(Debug)]
pub struct TranslationUnit {
    pub imports: Vec<ImportStatement>,
    pub global_directives: Vec<GlobalDirective>,
    pub global_declarations: Vec<GlobalDeclaration>,
}

pub ghost struct UnitView {
    pub imports: Seq<StatementView>,
    pub directives: Seq<DirectiveView>,
    pub declarations: Seq<DeclView>,
}

impl View for TranslationUnit {
    type V = UnitView;

    open spec fn view(&self) -> UnitView {
        UnitView {
            imports: views(self.imports@),
            directives: views(self.global_directives@),
            declarations: views(self.global_declarations@),
        }
    }
}

} // verus!
