//! Linking the identifiers of a module to what they mean at module scope.
use crate::imports::{Imports, ImportsView};
use crate::module::decl_index;
use crate::syntax::{DeclView, GlobalDeclaration, Ident, IdentView, TypeExpression, TypeView};
use crate::table::{by_name, find_by_name};
use crate::views::{group_views, views};
use vstd::prelude::*;

verus! {

broadcast use group_views;

/// What a name means at module scope: the first declaration of that name, or else the
/// first import of that name.
pub open spec fn in_scope(
    idents: Seq<(IdentView, usize)>,
    imports: ImportsView,
    name: Seq<char>,
) -> Option<IdentView> {
    match by_name(idents, name) {
        Some((ident, _)) => Some(ident),
        None => match by_name(imports, name) {
            Some((ident, _)) => Some(ident),
            None => None,
        },
    }
}

impl TypeView {
    /// The type expression in which every identifier that means something at module scope
    /// is the one that is declared or imported there.
    pub open spec fn linked(
        self,
        idents: Seq<(IdentView, usize)>,
        imports: ImportsView,
    ) -> TypeView
        decreases self,
    {
        TypeView {
            path: self.path,
            ident: match in_scope(idents, imports, self.ident.name) {
                Some(ident) => if self.local {
                    self.ident
                } else {
                    ident
                },
                None => self.ident,
            },
            local: self.local,
            nested: Seq::new(
                self.nested.len(),
                |i: int|
                    if 0 <= i < self.nested.len() {
                        self.nested[i].linked(idents, imports)
                    } else {
                        arbitrary()
                    },
            ),
        }
    }
}

/// Type expressions, each with its identifiers linked.
pub open spec fn linked_types(
    types: Seq<TypeView>,
    idents: Seq<(IdentView, usize)>,
    imports: ImportsView,
) -> Seq<TypeView> {
    Seq::new(types.len(), |i: int| types[i].linked(idents, imports))
}

/// The declarations of a module, with their identifiers linked.
pub open spec fn linked_decls(decls: Seq<DeclView>, imports: ImportsView) -> Seq<DeclView> {
    Seq::new(
        decls.len(),
        |i: int|
            DeclView {
                kind: decls[i].kind,
                types: linked_types(decls[i].types, decl_index(decls), imports),
                node: decls[i].node,
            },
    )
}

/// Linking does not touch what is declared.
pub proof fn lemma_linked_index(decls: Seq<DeclView>, more: Seq<DeclView>)
    requires
        decls.len() == more.len(),
        forall|i: int| 0 <= i < decls.len() ==> (#[trigger] decls[i]).kind == more[i].kind,
    ensures
        decl_index(decls) == decl_index(more),
    decreases decls.len(),
{
    if decls.len() > 0 {
        assert forall|i: int| 0 <= i < decls.drop_last().len() implies (
        #[trigger] decls.drop_last()[i]).kind == more.drop_last()[i].kind by {
            assert(decls[i].kind == more[i].kind);
        }
        lemma_linked_index(decls.drop_last(), more.drop_last());
        assert(decls[decls.len() - 1].kind == more[more.len() - 1].kind);
    }
}

fn link_type(ty: &TypeExpression, idents: &Vec<(Ident, usize)>, imports: &Imports) -> (res:
    TypeExpression)
    ensures
        res@ == ty@.linked(views(idents@), views(imports@)),
    decreases ty,
{
    let mut nested: Vec<TypeExpression> = Vec::new();
    let mut i: usize = 0;
    while i < ty.nested.len()
        invariant
            i <= ty.nested@.len(),
            nested@.len() == i,
            forall|j: int|
                0 <= j < i ==> (#[trigger] nested@[j])@ == ty.nested@[j]@.linked(
                    views(idents@),
                    views(imports@),
                ),
        decreases ty.nested@.len() - i,
    {
        nested.push(link_type(&ty.nested[i], idents, imports));
        i += 1;
    }
    let ident = if ty.local {
        ty.ident.clone()
    } else {
        match find_by_name(idents, &ty.ident.name) {
            Some(entry) => entry.0.clone(),
            None => match find_by_name(imports, &ty.ident.name) {
                Some(entry) => entry.0.clone(),
                None => ty.ident.clone(),
            },
        }
    };
    let path = match &ty.path {
        Some(path) => Some(path.clone()),
        None => None,
    };
    let res = TypeExpression { path, ident, local: ty.local, nested };
    assert(res@.nested =~= ty@.linked(views(idents@), views(imports@)).nested);
    res
}

/// Links the identifiers in the declarations of a module, so that all identifiers that
/// point to the same declaration or import are the same identifier.
pub fn retarget_idents(
    decls: &mut Vec<GlobalDeclaration>,
    idents: &Vec<(Ident, usize)>,
    imports: &Imports,
)
    requires
        views(idents@) == decl_index(views(old(decls)@)),
    ensures
        views(final(decls)@) == linked_decls(views(old(decls)@), views(imports@)),
{
    let mut i: usize = 0;
    while i < decls.len()
        invariant
            i <= decls@.len(),
            decls@.len() == old(decls)@.len(),
            views(idents@) == decl_index(views(old(decls)@)),
            forall|j: int|
                i <= j < decls@.len() ==> #[trigger] decls@[j] == old(decls)@[j],
            forall|j: int|
                0 <= j < i ==> (#[trigger] decls@[j])@ == linked_decls(
                    views(old(decls)@),
                    views(imports@),
                )[j],
        decreases decls@.len() - i,
    {
        let mut types: Vec<TypeExpression> = Vec::new();
        let mut k: usize = 0;
        while k < decls[i].types.len()
            invariant
                i < decls@.len(),
                k <= decls@[i as int].types@.len(),
                types@.len() == k,
                forall|j: int|
                    0 <= j < k ==> (#[trigger] types@[j])@ == decls@[i as int].types@[j]@.linked(
                        views(idents@),
                        views(imports@),
                    ),
            decreases decls@[i as int].types@.len() - k,
        {
            types.push(link_type(&decls[i].types[k], idents, imports));
            k += 1;
        }
        assert(views(types@) =~= linked_types(
            views(decls@[i as int].types@),
            views(idents@),
            views(imports@),
        ));
        decls[i].types = types;
        i += 1;
    }
    assert(views(decls@) =~= linked_decls(views(old(decls)@), views(imports@)));
}

} // verus!
