//! What holds of every retargeting: which declaration a reference ends up with.
use crate::error::ImportErrorView;
use crate::follow_laws::lemma_index_key;
use crate::imports::inline_path;
use crate::link_laws::{
    declares_first, declares_name, lemma_index_first, lemma_index_names, lemma_mapped_at,
    names_agree, type_at,
};
use crate::module::{CodeView, ModuleView};
use crate::resolutions::{position, ResolutionsView};
use crate::retarget::{
    chase, external_decl, first_retarget_error, lemma_external_decl, lemma_retarget_error_concat,
    used_types, Place,
};
use crate::step_laws::{lemma_import_found, lemma_index_id, lemma_own_import, lemma_undeclared};
use crate::syntax::{DeclView, IdentView, KindView, PathView, TypeView};
use crate::table::{by_id, distinct_keys, lemma_by_id};
use crate::table_laws::law_identity_comes_before_the_name;
use crate::usage::post_orders;
use vstd::prelude::*;

verus! {

/// A reference to a module that declares its identifier, or failing that its name, means the
/// identifier that is declared there: the one itself, or the first one of the name.
pub proof fn law_a_declaration_ends_the_search(
    modules: Seq<ModuleView>,
    path: PathView,
    ident: IdentView,
    i: int,
    n: int,
)
    requires
        position(modules, path) == Some(i),
        modules[i].code.source.fits(),
        names_agree(modules[i].code.source.declarations),
        0 <= n < modules[i].code.source.declarations.len(),
        modules[i].code.source.declarations[n].ident() matches Some(decl) && (decl.id == ident.id
            || decl.name == ident.name),
    ensures
        external_decl(modules, path, ident) matches Some(res) && {
            let decls = modules[i].code.source.declarations;
            &&& exists|m: int|
                0 <= m < decls.len() && (#[trigger] decls[m]).declares(res.id) && decls[m].ident()
                    == Some(res)
            &&& if exists|m: int| 0 <= m < decls.len() && (#[trigger] decls[m]).declares(ident.id) {
                res.id == ident.id
            } else {
                exists|m: int|
                    declares_first(decls, ident.name, m) && (#[trigger] decls[m]).ident() == Some(
                        res,
                    )
            }
        },
{
    let code = modules[i].code;
    let decls = code.source.declarations;
    lemma_index_id(code, ident.id);
    lemma_index_names(decls, ident.name);
    if decls[n].ident()->0.id == ident.id {
        assert(decls[n].declares(ident.id));
    } else {
        assert(declares_name(decls, ident.name));
    }
    lemma_external_decl(modules, path, ident, 0);
    let res = external_decl(modules, path, ident)->0;
    if by_id(code.idents(), ident.id) is Some {
        lemma_key_declared(code, ident.id);
    } else {
        lemma_index_first(decls, ident.name);
        let m = choose|m: int|
            declares_first(decls, ident.name, m) && (#[trigger] decls[m]).ident() == Some(res);
        assert(decls[m].declares(res.id));
    }
}

/// The key of an entry of the index is declared.
proof fn lemma_key_declared(code: CodeView, id: u64)
    requires
        by_id(code.idents(), id) is Some,
    ensures
        ({
            let key = (by_id(code.idents(), id)->0).0;
            let decls = code.source.declarations;
            key.id == id && exists|m: int|
                0 <= m < decls.len() && (#[trigger] decls[m]).declares(id) && decls[m].ident()
                    == Some(key)
        }),
{
    let decls = code.source.declarations;
    let e = by_id(code.idents(), id)->0;
    lemma_by_id(code.idents(), id);
    let k = choose|k: int| 0 <= k < code.idents().len() && #[trigger] code.idents()[k] == e;
    lemma_index_key(decls, k);
    let m = choose|m: int|
        0 <= m < decls.len() && (#[trigger] decls[m]).ident() == Some(code.idents()[k].0);
    assert(decls[m].declares(id));
}

/// A reference to a module that does not declare but imports its identifier, or failing that its
/// name, means what the imported item means where it is imported from. Here it makes no
/// difference whether the import is public.
pub proof fn law_imports_are_followed(
    modules: Seq<ModuleView>,
    path: PathView,
    ident: IdentView,
    i: int,
    m: int,
)
    requires
        position(modules, path) == Some(i),
        ({
            let code = modules[i].code;
            &&& code.source.fits()
            &&& names_agree(code.source.declarations)
            &&& distinct_keys(code.imports)
            &&& forall|n: int|
                0 <= n < code.source.declarations.len() ==> ((
                #[trigger] code.source.declarations[n]).ident() matches Some(decl) ==> decl.id
                    != ident.id && decl.name != ident.name)
            &&& 0 <= m < code.imports.len()
            &&& code.imports[m].0.id == ident.id || (code.imports[m].0.name == ident.name && (
            forall|j: int|
                0 <= j < code.imports.len() ==> (#[trigger] code.imports[j]).0.id != ident.id) && (
            forall|j: int| 0 <= j < m ==> (#[trigger] code.imports[j]).0.name != ident.name))
        }),
    ensures
        external_decl(modules, path, ident) == external_decl(
            modules,
            modules[i].code.imports[m].1.path,
            modules[i].code.imports[m].1.ident,
        ),
{
    let code = modules[i].code;
    let item = code.imports[m].1;
    lemma_undeclared(code, ident);
    lemma_own_import(code, ident, m);
    assert forall|hops: nat| #[trigger]
        chase(modules, item.path, item.ident, hops) is Some implies chase(
        modules,
        path,
        ident,
        hops + 1,
    ) == chase(modules, item.path, item.ident, hops) by {}
    if exists|hops: nat| #[trigger] chase(modules, item.path, item.ident, hops) is Some {
        let hops = choose|hops: nat| #[trigger] chase(modules, item.path, item.ident, hops) is Some;
        lemma_external_decl(modules, item.path, item.ident, hops);
        lemma_external_decl(modules, path, ident, hops + 1);
    } else {
        assert forall|hops: nat| #[trigger] chase(modules, path, ident, hops) is None by {
            if hops > 0 {
                assert(chase(modules, item.path, item.ident, (hops - 1) as nat) is None);
            }
        }
    }
}

/// A reference to a module that is not loaded, or that neither declares nor imports the
/// identifier or its name, means nothing.
pub proof fn law_dead_ends_mean_nothing(modules: Seq<ModuleView>, path: PathView, ident: IdentView)
    requires
        position(modules, path) matches Some(i) ==> {
            let code = modules[i].code;
            &&& code.source.fits()
            &&& names_agree(code.source.declarations)
            &&& forall|n: int|
                0 <= n < code.source.declarations.len() ==> ((
                #[trigger] code.source.declarations[n]).ident() matches Some(decl) ==> decl.id
                    != ident.id && decl.name != ident.name)
            &&& forall|m: int|
                0 <= m < code.imports.len() ==> (#[trigger] code.imports[m]).0.id != ident.id
                    && code.imports[m].0.name != ident.name
        },
    ensures
        external_decl(modules, path, ident) is None,
{
    if position(modules, path) is Some {
        let code = modules[position(modules, path)->0].code;
        lemma_undeclared(code, ident);
        law_identity_comes_before_the_name(code.imports, ident);
    }
    assert forall|hops: nat| #[trigger] chase(modules, path, ident, hops) is None by {}
}

/// Whether a name in a module stands for a name in another one, which it is imported from.
pub open spec fn stands_for(modules: Seq<ModuleView>, place: Place, next: Place) -> bool {
    &&& position(modules, place.path) matches Some(i)
    &&& modules[i].code.find_decl(place.ident) is None
    &&& modules[i].code.find_import(place.ident) matches Some((_, item))
    &&& item.path == next.path
    &&& item.ident == next.ident
}

/// What a reference means is found by following imports, from one module to the next, to a
/// module that declares it. So imports that lead in a circle mean nothing.
pub proof fn law_imports_lead_to_declarations(
    modules: Seq<ModuleView>,
    path: PathView,
    ident: IdentView,
) -> (places: Seq<Place>)
    requires
        external_decl(modules, path, ident) is Some,
    ensures
        places.len() > 0,
        places[0] == (Place { path, ident }),
        forall|x: int|
            0 < x < places.len() ==> stands_for(modules, places[x - 1], #[trigger] places[x]),
        position(modules, places.last().path) matches Some(i) && (modules[i].code.find_decl(
            places.last().ident,
        ) matches Some((decl, _)) && external_decl(modules, path, ident) == Some(decl)),
{
    let hops = choose|hops: nat| #[trigger] chase(modules, path, ident, hops) is Some;
    lemma_chain_places(modules, path, ident, hops)
}

proof fn lemma_chain_places(
    modules: Seq<ModuleView>,
    path: PathView,
    ident: IdentView,
    hops: nat,
) -> (places: Seq<Place>)
    requires
        chase(modules, path, ident, hops) is Some,
    ensures
        places.len() > 0,
        places[0] == (Place { path, ident }),
        forall|x: int|
            0 < x < places.len() ==> stands_for(modules, places[x - 1], #[trigger] places[x]),
        position(modules, places.last().path) matches Some(i) && (modules[i].code.find_decl(
            places.last().ident,
        ) matches Some((decl, _)) && chase(modules, path, ident, hops) == Some(decl)),
    decreases hops,
{
    let start = Place { path, ident };
    let i = position(modules, path)->0;
    if modules[i].code.find_decl(ident) is Some {
        seq![start]
    } else {
        let item = (modules[i].code.find_import(ident)->0).1;
        let rest = lemma_chain_places(modules, item.path, item.ident, (hops - 1) as nat);
        let places = seq![start] + rest;
        assert forall|x: int| 0 < x < places.len() implies stands_for(
            modules,
            places[x - 1],
            #[trigger] places[x],
        ) by {
            if x > 1 {
                assert(places[x] == rest[x - 1]);
                assert(places[x - 1] == rest[x - 2]);
            } else {
                assert(places[x] == rest[0]);
            }
        }
        assert(places.last() == rest.last());
        places
    }
}

/// A reference without a path, whose identifier is not imported, stays as it is.
pub proof fn law_own_references_stay(code: CodeView, modules: Seq<ModuleView>, ty: TypeView)
    requires
        ty.path is None,
        forall|m: int|
            0 <= m < code.imports.len() ==> (#[trigger] code.imports[m]).0.id != ty.ident.id,
    ensures
        code.retarget_ident(modules, ty) == Ok::<Option<IdentView>, ImportErrorView>(None),
{
    lemma_by_id(code.imports, ty.ident.id);
}

/// A reference to an imported item gets the identifier that the item means in the module that
/// it is imported from. A reference with a path gets what its identifier means in the module
/// that the path leads to. If it means nothing there, that is an error, with the path of that
/// module and the name that was looked for.
pub proof fn law_references_get_what_they_mean(
    code: CodeView,
    modules: Seq<ModuleView>,
    ty: TypeView,
    m: int,
    path: PathView,
    ident: IdentView,
)
    requires
        distinct_keys(code.imports),
        match ty.path {
            Some(inline) => path == inline_path(inline, code.path, code.imports) && ident
                == ty.ident,
            None => 0 <= m < code.imports.len() && code.imports[m].0.id == ty.ident.id && path
                == code.imports[m].1.path && ident == code.imports[m].1.ident,
        },
        path != code.path,
    ensures
        external_decl(modules, path, ident) matches Some(decl) ==> code.retarget_ident(modules, ty)
            == Ok::<Option<IdentView>, ImportErrorView>(Some(decl)),
        external_decl(modules, path, ident) is None ==> code.retarget_ident(modules, ty) == Err::<
            Option<IdentView>,
            ImportErrorView,
        >(ImportErrorView::MissingDecl(path, ident.name)),
{
    if ty.path is None {
        lemma_import_found(code, m);
    }
}

/// A reference that leads back to its own module gets the identifier that is declared there
/// first under its name. If there is none, that is an error.
pub proof fn law_own_paths_get_the_declared_name(
    code: CodeView,
    modules: Seq<ModuleView>,
    ty: TypeView,
    m: int,
    name: Seq<char>,
)
    requires
        code.source.fits(),
        names_agree(code.source.declarations),
        distinct_keys(code.imports),
        match ty.path {
            Some(inline) => inline_path(inline, code.path, code.imports) == code.path && name
                == ty.ident.name,
            None => 0 <= m < code.imports.len() && code.imports[m].0.id == ty.ident.id
                && code.imports[m].1.path == code.path && name == code.imports[m].1.ident.name,
        },
    ensures
        declares_name(code.source.declarations, name) ==> exists|n: int|
            declares_first(code.source.declarations, name, n) && code.retarget_ident(modules, ty)
                == Ok::<Option<IdentView>, ImportErrorView>(
                (#[trigger] code.source.declarations[n]).ident(),
            ),
        !declares_name(code.source.declarations, name) ==> code.retarget_ident(modules, ty)
            == Err::<Option<IdentView>, ImportErrorView>(
            ImportErrorView::MissingDecl(code.path, name),
        ),
{
    if ty.path is None {
        lemma_import_found(code, m);
    }
    lemma_index_names(code.source.declarations, name);
    lemma_index_first(code.source.declarations, name);
}

/// Whether a declaration counts as used: what has no identifier always does.
pub open spec fn counts_as_used(decl: DeclView, used: Set<u64>) -> bool {
    match decl.kind {
        KindView::Named(ident) => used.contains(ident.id),
        _ => true,
    }
}

/// Retargeting reaches every reference in a declaration that is used, however deep it is nested.
/// One that gets an identifier loses its path; others keep both. Nothing else changes. A
/// declaration that is not used stays as it is.
pub proof fn law_retargeting_reaches_every_reference(
    code: CodeView,
    used: Set<u64>,
    modules: Seq<ModuleView>,
    decl: DeclView,
    route: Seq<int>,
)
    ensures
        ({
            let res = decl.retargeted(code, used, modules);
            &&& res.kind == decl.kind
            &&& res.node == decl.node
            &&& res.types.len() == decl.types.len()
            &&& !counts_as_used(decl, used) ==> res == decl
            &&& counts_as_used(decl, used) ==> match type_at(decl.types, route) {
                Some(ty) => type_at(res.types, route) matches Some(new) && {
                    &&& new.local == ty.local
                    &&& new.nested.len() == ty.nested.len()
                    &&& match code.retarget_ident(modules, ty) {
                        Ok(Some(ident)) => new.ident == ident && new.path is None,
                        _ => new.ident == ty.ident && new.path == ty.path,
                    }
                },
                None => type_at(res.types, route) is None,
            }
        }),
{
    let change = |t: TypeView| t.retargeted(code, modules);
    assert forall|t: TypeView| (#[trigger] change(t)).nested == t.nested.map_values(change) by {
        assert(change(t).nested =~= t.nested.map_values(change));
    }
    if counts_as_used(decl, used) {
        assert(decl.retargeted(code, used, modules).types =~= decl.types.map_values(change));
        lemma_mapped_at(decl.types, change, route);
    }
}

/// Retargeting concerns all modules, each with its own code and what is used there, and changes
/// nothing in them but declarations: their order, their paths, their imports, their directives
/// and what is used in them stay as they are.
pub proof fn law_retargeting_keeps_modules(resolutions: ResolutionsView, i: int)
    requires
        resolutions.retargeted() is Ok,
    ensures
        resolutions.retargeted()->Ok_0.order == resolutions.order,
        resolutions.retargeted()->Ok_0.modules.len() == resolutions.modules.len(),
        0 <= i < resolutions.modules.len() ==> {
            let before = resolutions.modules[i];
            let after = resolutions.retargeted()->Ok_0.modules[i];
            let decls = before.code.source.declarations;
            &&& after.used == before.used
            &&& after.code.path == before.code.path
            &&& after.code.imports == before.code.imports
            &&& after.code.source.imports == before.code.source.imports
            &&& after.code.source.directives == before.code.source.directives
            &&& after.code.source.declarations.len() == decls.len()
            &&& forall|n: int|
                0 <= n < decls.len() ==> #[trigger] after.code.source.declarations[n]
                    == decls[n].retargeted(before.code, before.used, resolutions.modules)
        },
{
}

/// The first type expression that fails.
proof fn lemma_first_type(code: CodeView, modules: Seq<ModuleView>, types: Seq<TypeView>) -> (k:
    int)
    ensures
        match code.retarget_error(modules, types) {
            Some(e) => 0 <= k < types.len() && code.retarget_ident(modules, types[k]) == Err::<
                Option<IdentView>,
                ImportErrorView,
            >(e) && forall|j: int|
                0 <= j < k ==> code.retarget_ident(modules, #[trigger] types[j]) is Ok,
            None => forall|j: int|
                0 <= j < types.len() ==> code.retarget_ident(modules, #[trigger] types[j]) is Ok,
        },
    decreases types.len(),
{
    if types.len() == 0 {
        0
    } else {
        let rest = types.drop_last();
        let k = lemma_first_type(code, modules, rest);
        assert forall|j: int| 0 <= j < rest.len() implies #[trigger] types[j] == rest[j] by {}
        assert forall|j: int|
            0 <= j < rest.len() && code.retarget_ident(modules, rest[j]) is Ok implies
            code.retarget_ident(modules, #[trigger] types[j]) is Ok by {}
        if code.retarget_error(modules, rest) is Some {
            k
        } else {
            types.len() - 1
        }
    }
}

/// Whether the reference at position `k` of the declaration at position `n` is the first one
/// that fails in a module, with the error `e`.
pub open spec fn fails_first(
    module: ModuleView,
    modules: Seq<ModuleView>,
    n: int,
    k: int,
    e: ImportErrorView,
) -> bool {
    let decls = module.code.source.declarations;
    &&& 0 <= n < decls.len()
    &&& counts_as_used(decls[n], module.used)
    &&& 0 <= k < post_orders(decls[n].types).len()
    &&& module.code.retarget_ident(modules, post_orders(decls[n].types)[k]) == Err::<
        Option<IdentView>,
        ImportErrorView,
    >(e)
    &&& forall|j: int|
        0 <= j < k ==> module.code.retarget_ident(
            modules,
            #[trigger] post_orders(decls[n].types)[j],
        ) is Ok
    &&& forall|m: int|
        0 <= m < n ==> decl_succeeds(module.code, module.used, modules, #[trigger] decls[m])
}

/// Whether no reference of a declaration that is used fails.
pub open spec fn decl_succeeds(
    code: CodeView,
    used: Set<u64>,
    modules: Seq<ModuleView>,
    decl: DeclView,
) -> bool {
    counts_as_used(decl, used) ==> forall|j: int|
        0 <= j < post_orders(decl.types).len() ==> code.retarget_ident(
            modules,
            #[trigger] post_orders(decl.types)[j],
        ) is Ok
}

/// Whether no reference of the used declarations of a module fails.
pub open spec fn module_succeeds(module: ModuleView, modules: Seq<ModuleView>) -> bool {
    let decls = module.code.source.declarations;
    forall|n: int|
        0 <= n < decls.len() ==> decl_succeeds(
            module.code,
            module.used,
            modules,
            #[trigger] decls[n],
        )
}

/// The first reference that fails in the declarations of a module.
proof fn lemma_first_decl(
    code: CodeView,
    used: Set<u64>,
    modules: Seq<ModuleView>,
    decls: Seq<DeclView>,
) -> (place: (int, int))
    ensures
        match code.retarget_error(modules, used_types(decls, used)) {
            Some(e) => {
                let (n, k) = place;
                &&& 0 <= n < decls.len()
                &&& counts_as_used(decls[n], used)
                &&& 0 <= k < post_orders(decls[n].types).len()
                &&& code.retarget_ident(modules, post_orders(decls[n].types)[k]) == Err::<
                    Option<IdentView>,
                    ImportErrorView,
                >(e)
                &&& forall|j: int|
                    0 <= j < k ==> code.retarget_ident(
                        modules,
                        #[trigger] post_orders(decls[n].types)[j],
                    ) is Ok
                &&& forall|m: int|
                    0 <= m < n ==> decl_succeeds(code, used, modules, #[trigger] decls[m])
            },
            None => forall|m: int|
                0 <= m < decls.len() ==> decl_succeeds(code, used, modules, #[trigger] decls[m]),
        },
    decreases decls.len(),
{
    if decls.len() == 0 {
        (0, 0)
    } else {
        let rest = decls.drop_last();
        let n = decls.len() - 1;
        let last = if decls[n].is_used(used) {
            post_orders(decls[n].types)
        } else {
            Seq::empty()
        };
        let place = lemma_first_decl(code, used, modules, rest);
        lemma_retarget_error_concat(code, modules, used_types(rest, used), last);
        assert forall|m: int| 0 <= m < rest.len() implies #[trigger] rest[m] == decls[m] by {}
        assert forall|m: int|
            0 <= m < rest.len() && decl_succeeds(code, used, modules, rest[m]) implies
            decl_succeeds(code, used, modules, #[trigger] decls[m]) by {}
        if code.retarget_error(modules, used_types(rest, used)) is Some {
            place
        } else {
            let k = lemma_first_type(code, modules, last);
            (n, k)
        }
    }
}

/// The first reference that fails in a list of modules.
proof fn lemma_first_module(some: Seq<ModuleView>, modules: Seq<ModuleView>) -> (place: (
    int,
    int,
    int,
))
    ensures
        match first_retarget_error(some, modules) {
            Some(e) => {
                let (i, n, k) = place;
                &&& 0 <= i < some.len()
                &&& fails_first(some[i], modules, n, k, e)
                &&& forall|j: int| 0 <= j < i ==> module_succeeds(#[trigger] some[j], modules)
            },
            None => forall|j: int|
                0 <= j < some.len() ==> module_succeeds(#[trigger] some[j], modules),
        },
    decreases some.len(),
{
    if some.len() == 0 {
        (0, 0, 0)
    } else {
        let rest = some.drop_last();
        let i = some.len() - 1;
        let module = some[i];
        let place = lemma_first_module(rest, modules);
        assert forall|j: int| 0 <= j < rest.len() implies #[trigger] rest[j] == some[j] by {}
        assert forall|j: int|
            0 <= j < rest.len() && module_succeeds(rest[j], modules) implies module_succeeds(
            #[trigger] some[j],
            modules,
        ) by {}
        if first_retarget_error(rest, modules) is Some {
            place
        } else {
            let (n, k) = lemma_first_decl(
                module.code,
                module.used,
                modules,
                module.code.source.declarations,
            );
            (i, n, k)
        }
    }
}

/// Retargeting succeeds if no reference of a used declaration fails, in any module. Otherwise it
/// fails with the error of the first one that does: in the first module, in the first
/// declaration of that in source order, in the order in which the references are visited.
pub proof fn law_retargeting_fails_with_the_first_error(resolutions: ResolutionsView) -> (place: (
    int,
    int,
    int,
))
    ensures
        match resolutions.retargeted() {
            Ok(_) => forall|j: int|
                0 <= j < resolutions.modules.len() ==> module_succeeds(
                    #[trigger] resolutions.modules[j],
                    resolutions.modules,
                ),
            Err(e) => {
                let (i, n, k) = place;
                &&& 0 <= i < resolutions.modules.len()
                &&& fails_first(resolutions.modules[i], resolutions.modules, n, k, e)
                &&& forall|j: int|
                    0 <= j < i ==> module_succeeds(
                        #[trigger] resolutions.modules[j],
                        resolutions.modules,
                    )
            },
        },
{
    lemma_first_module(resolutions.modules, resolutions.modules)
}

} // verus!
