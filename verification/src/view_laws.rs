//! What holds of every view: it shows all there is to a value, so that a contract on views leaves
//! nothing out.
use crate::error::{Cause, Error, ImportError, Location, ResolveError};
use crate::imports::ImportedItem;
use crate::module::Module;
use crate::resolutions::Resolutions;
use crate::syntax::{
    DeclarationKind, DirectiveKind, GlobalDeclaration, GlobalDirective, Ident, Import,
    ImportContent, ImportItem, ImportStatement, ModulePath, PathOrigin, TranslationUnit,
    TypeExpression,
};
use crate::usage::{Entrypoint, ExtItem};
use crate::views::{group_views, opt_view, views};
use vstd::prelude::*;

verus! {

broadcast use group_views;

/// Whether two lists have the same views, one element after the other.
pub open spec fn same_views<T: View>(a: Seq<T>, b: Seq<T>) -> bool {
    a.len() == b.len() && forall|i: int| 0 <= i < a.len() ==> (#[trigger] a[i])@ == b[i]@
}

/// Whether two optional values are both absent or have the same views.
pub open spec fn same_option<T: View>(a: Option<T>, b: Option<T>) -> bool {
    match (a, b) {
        (Some(x), Some(y)) => x@ == y@,
        (None, None) => true,
        _ => false,
    }
}

proof fn lemma_same_views<T: View>(a: Seq<T>, b: Seq<T>)
    ensures
        views(a) == views(b) <==> same_views(a, b),
{
    if views(a) == views(b) {
        assert(a.len() == views(a).len() && b.len() == views(b).len());
        assert forall|i: int| 0 <= i < a.len() implies (#[trigger] a[i])@ == b[i]@ by {
            assert(views(a)[i] == a[i]@ && views(b)[i] == b[i]@);
        }
    }
    if same_views(a, b) {
        assert(views(a) =~= views(b));
    }
}

/// Identifiers are the same if number and name are.
pub proof fn law_identifiers_show_number_and_name(a: Ident, b: Ident)
    ensures
        a@ == b@ <==> a.id == b.id && a.name@ == b.name@,
{
}

/// Paths are the same if they have the same origin and the same components.
pub proof fn law_paths_show_origin_and_components(a: ModulePath, b: ModulePath)
    ensures
        a@ == b@ <==> same_views(a.components@, b.components@) && match (a.origin, b.origin) {
            (PathOrigin::Absolute, PathOrigin::Absolute) => true,
            (PathOrigin::Relative(m), PathOrigin::Relative(n)) => m == n,
            (PathOrigin::Package(m), PathOrigin::Package(n)) => m@ == n@,
            _ => false,
        },
{
    lemma_same_views(a.components@, b.components@);
}

/// Type expressions are the same if path, identifier, binding and all that is nested are.
pub proof fn law_type_expressions_show_their_parts(a: TypeExpression, b: TypeExpression)
    ensures
        a@ == b@ <==> same_option(a.path, b.path) && a.ident@ == b.ident@ && a.local == b.local
            && same_views(a.nested@, b.nested@),
{
    assert(a@.nested =~= views(a.nested@));
    assert(b@.nested =~= views(b.nested@));
    lemma_same_views(a.nested@, b.nested@);
}

/// Declarations are the same if kind, type expressions and syntax node are.
pub proof fn law_declarations_show_their_parts(a: GlobalDeclaration, b: GlobalDeclaration)
    ensures
        a@ == b@ <==> a.node == b.node && same_views(a.types@, b.types@) && match (
            a.kind,
            b.kind,
        ) {
            (DeclarationKind::Void, DeclarationKind::Void) => true,
            (DeclarationKind::Named(x), DeclarationKind::Named(y)) => x@ == y@,
            (DeclarationKind::ConstAssert, DeclarationKind::ConstAssert) => true,
            _ => false,
        },
{
    lemma_same_views(a.types@, b.types@);
}

/// Import statements are the same if attributes, path and content are, down to every item.
pub proof fn law_imports_show_their_parts(
    a: ImportStatement,
    b: ImportStatement,
    c: Import,
    d: Import,
    x: ImportItem,
    y: ImportItem,
)
    ensures
        a@ == b@ <==> a.attributes@ == b.attributes@ && same_option(a.path, b.path) && a.content@
            == b.content@,
        a.content@ == b.content@ <==> match (a.content, b.content) {
            (ImportContent::Item(m), ImportContent::Item(n)) => m@ == n@,
            (ImportContent::Collection(m), ImportContent::Collection(n)) => same_views(m@, n@),
            _ => false,
        },
        c@ == d@ <==> same_views(c.path@, d.path@) && c.content@ == d.content@,
        x@ == y@ <==> x.ident@ == y.ident@ && same_option(x.rename, y.rename),
{
    lemma_same_views(c.path@, d.path@);
    if let ImportContent::Collection(m) = a.content {
        assert(a.content@->Collection_0 =~= views(m@));
        if let ImportContent::Collection(n) = b.content {
            assert(b.content@->Collection_0 =~= views(n@));
            lemma_same_views(m@, n@);
        }
    }
}

/// Directives are the same if attributes and kind are, with all names in order.
pub proof fn law_directives_show_their_parts(a: GlobalDirective, b: GlobalDirective)
    ensures
        a@ == b@ <==> a.attributes@ == b.attributes@ && match (a.kind, b.kind) {
            (DirectiveKind::Diagnostic(s, x), DirectiveKind::Diagnostic(t, y)) => s == t && x@
                == y@,
            (DirectiveKind::Enable(x), DirectiveKind::Enable(y)) => same_views(x@, y@),
            (DirectiveKind::Requires(x), DirectiveKind::Requires(y)) => same_views(x@, y@),
            _ => false,
        },
{
    match (a.kind, b.kind) {
        (DirectiveKind::Enable(x), DirectiveKind::Enable(y)) => {
            lemma_same_views(x@, y@);
        },
        (DirectiveKind::Requires(x), DirectiveKind::Requires(y)) => {
            lemma_same_views(x@, y@);
        },
        _ => {},
    }
}

/// Syntax trees are the same if imports, directives and declarations are.
pub proof fn law_syntax_trees_show_their_parts(a: TranslationUnit, b: TranslationUnit)
    ensures
        a@ == b@ <==> same_views(a.imports@, b.imports@) && same_views(
            a.global_directives@,
            b.global_directives@,
        ) && same_views(a.global_declarations@, b.global_declarations@),
{
    lemma_same_views(a.imports@, b.imports@);
    lemma_same_views(a.global_directives@, b.global_directives@);
    lemma_same_views(a.global_declarations@, b.global_declarations@);
}

/// Modules are the same if source, path, imports and used identifiers are; the index of
/// declarations follows from the source.
pub proof fn law_modules_show_their_parts(a: Module, b: Module, x: ImportedItem, y: ImportedItem)
    ensures
        a@ == b@ <==> a.source@ == b.source@ && a.path@ == b.path@ && a.used_idents@
            == b.used_idents@ && same_views(a.imports@, b.imports@),
        x@ == y@ <==> x.path@ == y.path@ && x.ident@ == y.ident@ && x.public == y.public,
        a.wf() && b.wf() && a@ == b@ ==> same_views(a.idents@, b.idents@),
{
    lemma_same_views(a.imports@, b.imports@);
    lemma_same_views(a.idents@, b.idents@);
}

/// Resolutions are the same if modules and order are.
pub proof fn law_resolutions_show_their_parts(a: Resolutions, b: Resolutions)
    ensures
        a@ == b@ <==> same_views(a.modules@, b.modules@) && same_views(a.order@, b.order@),
{
    lemma_same_views(a.modules@, b.modules@);
    lemma_same_views(a.order@, b.order@);
}

/// External items are the same if they are used by, and looked for in, the same modules under
/// the same name. Entrypoints are the same if they are the same identifier or position.
pub proof fn law_items_show_their_parts(a: ExtItem, b: ExtItem, x: Entrypoint, y: Entrypoint)
    ensures
        a@ == b@ <==> a.from@ == b.from@ && a.path@ == b.path@ && a.ident@ == b.ident@,
        x@ == y@ <==> match (x, y) {
            (Entrypoint::Ident(m), Entrypoint::Ident(n)) => m@ == n@,
            (Entrypoint::Decl(m), Entrypoint::Decl(n)) => m == n,
            _ => false,
        },
{
}

/// Errors are the same if cause and location are.
pub proof fn law_errors_show_their_parts(
    a: Error,
    b: Error,
    c: ImportError,
    d: ImportError,
    r: ResolveError,
    s: ResolveError,
    x: Location,
    y: Location,
)
    ensures
        a@ == b@ <==> same_option(a.location, b.location) && match (a.cause, b.cause) {
            (Cause::Import(m), Cause::Import(n)) => m@ == n@,
            (Cause::Resolve(m), Cause::Resolve(n)) => m@ == n@,
            (Cause::StepLimit, Cause::StepLimit) => true,
            _ => false,
        },
        c@ == d@ <==> match (c, d) {
            (ImportError::DuplicateSymbol(m), ImportError::DuplicateSymbol(n)) => m@ == n@,
            (ImportError::ResolveError(m), ImportError::ResolveError(n)) => m@ == n@,
            (ImportError::MissingDecl(p, m), ImportError::MissingDecl(q, n)) => p@ == q@ && m@
                == n@,
            (ImportError::Private(m, p), ImportError::Private(n, q)) => p@ == q@ && m@ == n@,
            _ => false,
        },
        r@ == s@ <==> r.message@ == s.message@ && same_option(r.location, s.location),
        x@ == y@ <==> x.path@ == y.path@ && same_option(x.display_name, y.display_name),
{
    assert(a@.location == opt_view(a.location));
}

} // verus!
