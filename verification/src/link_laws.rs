//! What holds of the identifiers of every loaded module.
use crate::follow_laws::lemma_index_key;
use crate::imports::{import_table, ImportsView};
use crate::link::{lemma_linked_index, linked_types};
use crate::load::loaded_module;
use crate::module::{decl_index, lemma_decl_index};
use crate::syntax::{DeclView, IdentView, PathView, TypeView, UnitView};
use crate::table::{by_id, by_name, insert, lemma_by_id};
use crate::table_laws::law_the_first_name_is_found;
use crate::usage::{lemma_post_orders_concat, post_order, post_orders};
use crate::usage_laws::lemma_mapped_orders;
use vstd::prelude::*;

verus! {

/// The type expression that is found by going down: to the one at the first position of
/// `types`, to the one nested in it at the second position, and so on.
pub open spec fn type_at(types: Seq<TypeView>, route: Seq<int>) -> Option<TypeView>
    decreases route.len(),
{
    if route.len() == 0 || !(0 <= route[0] < types.len()) {
        None
    } else if route.len() == 1 {
        Some(types[route[0]])
    } else {
        type_at(types[route[0]].nested, route.drop_first())
    }
}

/// Where a change of type expressions applies to those nested in them as well, it applies at
/// the end of every route.
pub proof fn lemma_mapped_at(
    types: Seq<TypeView>,
    change: spec_fn(TypeView) -> TypeView,
    route: Seq<int>,
)
    requires
        forall|t: TypeView| (#[trigger] change(t)).nested == t.nested.map_values(change),
    ensures
        type_at(types.map_values(change), route) == match type_at(types, route) {
            Some(t) => Some(change(t)),
            None => None,
        },
    decreases route.len(),
{
    if route.len() > 1 && 0 <= route[0] < types.len() {
        assert(types.map_values(change)[route[0]] == change(types[route[0]]));
        lemma_mapped_at(types[route[0]].nested, change, route.drop_first());
    }
}

/// Every type expression that a declaration contains, however deep, is visited.
pub proof fn law_every_type_expression_is_visited(types: Seq<TypeView>, route: Seq<int>)
    ensures
        type_at(types, route) matches Some(ty) ==> post_orders(types).contains(ty),
    decreases route.len(),
{
    if type_at(types, route) is Some {
        let i = route[0];
        let x = type_at(types, route)->0;
        let ty = types[i];
        assert(post_order(ty) == post_orders(ty.nested).push(ty));
        if route.len() > 1 {
            law_every_type_expression_is_visited(ty.nested, route.drop_first());
            let k = choose|k: int|
                0 <= k < post_orders(ty.nested).len() && post_orders(ty.nested)[k] == x;
            assert(post_order(ty)[k] == x);
        } else {
            assert(post_order(ty)[post_orders(ty.nested).len() as int] == x);
        }
        let k = choose|k: int| 0 <= k < post_order(ty).len() && post_order(ty)[k] == x;
        let before = types.take(i);
        let after = types.skip(i + 1);
        assert(types =~= before.push(ty) + after);
        lemma_post_orders_concat(before.push(ty), after);
        assert(before.push(ty).drop_last() =~= before);
        assert(post_orders(before.push(ty)) == post_orders(before) + post_order(ty));
        assert(post_orders(types)[post_orders(before).len() + k] == x);
    }
}

/// Nothing is visited but what a declaration contains.
pub proof fn law_only_type_expressions_are_visited(types: Seq<TypeView>, k: int) -> (route: Seq<
    int,
>)
    requires
        0 <= k < post_orders(types).len(),
    ensures
        type_at(types, route) == Some(post_orders(types)[k]),
    decreases types,
{
    let prev = post_orders(types.drop_last());
    let ty = types.last();
    assert(post_orders(types) == prev + post_order(ty));
    if k < prev.len() {
        let route = law_only_type_expressions_are_visited(types.drop_last(), k);
        assert(types.drop_last()[route[0]] == types[route[0]]);
        route
    } else {
        let i = types.len() - 1;
        assert(post_order(ty) == post_orders(ty.nested).push(ty));
        if k - prev.len() < post_orders(ty.nested).len() {
            let inner = law_only_type_expressions_are_visited(ty.nested, k - prev.len());
            let route = seq![i] + inner;
            assert(route.drop_first() =~= inner);
            route
        } else {
            seq![i]
        }
    }
}

/// Type expressions are visited from left to right, each one right after those nested in it.
pub proof fn law_type_expressions_are_visited_in_order(
    a: Seq<TypeView>,
    b: Seq<TypeView>,
    ty: TypeView,
)
    ensures
        post_orders(a + b) == post_orders(a) + post_orders(b),
        post_orders(seq![ty]) == post_orders(ty.nested).push(ty),
        post_orders(Seq::empty()) == Seq::<TypeView>::empty(),
{
    lemma_post_orders_concat(a, b);
    let one = seq![ty];
    assert(one.drop_last() =~= Seq::empty());
    assert(one.last() == ty);
    assert(post_orders(Seq::empty()) =~= Seq::<TypeView>::empty());
    assert(post_order(ty) == post_orders(ty.nested).push(ty));
    assert(post_orders(one) =~= post_order(ty));
}

/// The index of declarations grows in source order. A declaration without an identifier adds
/// nothing, one of a new identifier adds an entry with its position, and one of an identifier
/// that is declared already moves the entry to its own position.
pub proof fn law_the_index_grows_in_source_order(decls: Seq<DeclView>, decl: DeclView)
    requires
        decls.len() < usize::MAX,
    ensures
        decl_index(Seq::empty()) == Seq::<(IdentView, usize)>::empty(),
        decl.ident() is None ==> decl_index(decls.push(decl)) == decl_index(decls),
        decl.ident() matches Some(ident) ==> {
            let before = decl_index(decls);
            let after = decl_index(decls.push(decl));
            let n = decls.len() as usize;
            &&& (forall|m: int| 0 <= m < decls.len() ==> !(#[trigger] decls[m]).declares(ident.id))
                ==> after == before.push((ident, n))
            &&& forall|m: int|
                0 <= m < decls.len() && (#[trigger] decls[m]).declares(ident.id) ==> after.len()
                    == before.len()
            &&& forall|i: int|
                0 <= i < before.len() ==> #[trigger] after[i] == (
                    before[i].0,
                    if before[i].0.id == ident.id {
                        n
                    } else {
                        before[i].1
                    },
                )
        },
{
    let before = decl_index(decls);
    assert(decls.push(decl).drop_last() =~= decls);
    lemma_decl_index(decls);
    if decl.ident() is Some {
        let ident = decl.ident()->0;
        lemma_by_id(before, ident.id);
        if by_id(before, ident.id) is Some {
            let i = choose|i: int|
                0 <= i < before.len() && #[trigger] before[i] == by_id(before, ident.id)->0;
            assert(decls[before[i].1 as int].declares(ident.id));
        } else {
            assert forall|m: int| 0 <= m < decls.len() implies !(
            #[trigger] decls[m]).declares(ident.id) by {
                if decls[m].declares(ident.id) {
                    assert(by_id(before, decls[m].ident()->0.id) is Some);
                }
            }
        }
    }
}

/// Whether a declaration is of the name `name`.
pub open spec fn declares_name(decls: Seq<DeclView>, name: Seq<char>) -> bool {
    exists|n: int|
        0 <= n < decls.len() && ((#[trigger] decls[n]).ident() matches Some(ident) && ident.name
            == name)
}

/// Whether an import is known by the name `name`.
pub open spec fn imports_name(imports: ImportsView, name: Seq<char>) -> bool {
    exists|m: int| 0 <= m < imports.len() && (#[trigger] imports[m]).0.name == name
}

/// Whether declarations of the same identifier are of the same name.
pub open spec fn names_agree(decls: Seq<DeclView>) -> bool {
    forall|i: int, j: int|
        0 <= i < decls.len() && 0 <= j < decls.len() && (#[trigger] decls[i]).ident() is Some && (
        #[trigger] decls[j]).ident() is Some && decls[i].ident()->0.id == decls[j].ident()->0.id
            ==> decls[i].ident()->0.name == decls[j].ident()->0.name
}

/// A name is in the index if it is declared.
pub proof fn lemma_index_names(decls: Seq<DeclView>, name: Seq<char>)
    requires
        decls.len() <= usize::MAX,
        names_agree(decls),
    ensures
        by_name(decl_index(decls), name) is Some == declares_name(decls, name),
        by_name(decl_index(decls), name) matches Some((key, _)) ==> key.name == name && by_id(
            decl_index(decls),
            key.id,
        ) is Some && exists|n: int|
            0 <= n < decls.len() && (#[trigger] decls[n]).ident() == Some(key),
{
    let index = decl_index(decls);
    lemma_decl_index(decls);
    law_the_first_name_is_found(index, name);
    if by_name(index, name) is Some {
        let e = by_name(index, name)->0;
        let i = choose|i: int| 0 <= i < index.len() && #[trigger] index[i] == e;
        lemma_index_key(decls, i);
        let n = choose|n: int|
            0 <= n < decls.len() && (#[trigger] decls[n]).ident() == Some(index[i].0);
        assert(decls[n].ident() == Some(e.0));
        lemma_by_id(index, e.0.id);
    }
    if declares_name(decls, name) {
        let n = choose|n: int|
            0 <= n < decls.len() && ((#[trigger] decls[n]).ident() matches Some(ident)
                && ident.name == name);
        let id = decls[n].ident()->0.id;
        assert(by_id(index, id) is Some);
        lemma_by_id(index, id);
        let i = choose|i: int| 0 <= i < index.len() && #[trigger] index[i] == by_id(index, id)->0;
        lemma_index_key(decls, i);
        let m = choose|m: int|
            0 <= m < decls.len() && (#[trigger] decls[m]).ident() == Some(index[i].0);
        assert(decls[m].ident()->0.name == decls[n].ident()->0.name);
        assert(index[i].0.name == name);
    }
}

/// Whether the declaration at position `n` is the first one of the name `name`.
pub open spec fn declares_first(decls: Seq<DeclView>, name: Seq<char>, n: int) -> bool {
    &&& 0 <= n < decls.len()
    &&& decls[n].ident() matches Some(ident) && ident.name == name
    &&& forall|j: int|
        0 <= j < n ==> ((#[trigger] decls[j]).ident() matches Some(ident) ==> ident.name != name)
}

/// Inserting keeps the entry that is found by a name.
proof fn lemma_insert_name(
    entries: Seq<(IdentView, usize)>,
    key: IdentView,
    value: usize,
    name: Seq<char>,
)
    ensures
        by_name(entries, name) matches Some((k, _)) ==> (by_name(
            insert(entries, key, value),
            name,
        ) matches Some((l, _)) && l == k),
        by_name(entries, name) is None ==> (by_name(insert(entries, key, value), name) matches Some(
            (l, _),
        ) ==> l == key && key.name == name),
{
    let res = insert(entries, key, value);
    law_the_first_name_is_found(entries, name);
    law_the_first_name_is_found(res, name);
    if by_name(entries, name) is Some {
        let e = by_name(entries, name)->0;
        let i = choose|i: int|
            0 <= i < entries.len() && #[trigger] entries[i] == e && e.0.name == name && (
            forall|j: int| 0 <= j < i ==> (#[trigger] entries[j]).0.name != name);
        assert(res[i].0 == e.0);
        let f = by_name(res, name)->0;
        let l = choose|l: int|
            0 <= l < res.len() && #[trigger] res[l] == f && f.0.name == name && (forall|j: int|
                0 <= j < l ==> (#[trigger] res[j]).0.name != name);
        if l < i {
            assert(res[l].0 == entries[l].0);
        } else if i < l {
            assert(res[i].0.name != name);
        }
    } else if by_name(res, name) is Some {
        let f = by_name(res, name)->0;
        let l = choose|l: int| 0 <= l < res.len() && #[trigger] res[l] == f && f.0.name == name;
        if l < entries.len() {
            assert(res[l].0 == entries[l].0);
        }
    }
}

/// A name in the index is that of the first declaration of the name.
pub proof fn lemma_index_first(decls: Seq<DeclView>, name: Seq<char>)
    requires
        decls.len() <= usize::MAX,
        names_agree(decls),
    ensures
        by_name(decl_index(decls), name) matches Some((key, _)) ==> exists|n: int|
            declares_first(decls, name, n) && (#[trigger] decls[n]).ident() == Some(key),
    decreases decls.len(),
{
    if decls.len() > 0 {
        let rest = decls.drop_last();
        let last = decls.len() - 1;
        assert forall|j: int| 0 <= j < rest.len() implies #[trigger] rest[j] == decls[j] by {}
        assert(names_agree(rest)) by {
            assert forall|i: int, j: int|
                0 <= i < rest.len() && 0 <= j < rest.len() && (#[trigger] rest[i]).ident() is Some
                    && (#[trigger] rest[j]).ident() is Some && rest[i].ident()->0.id
                    == rest[j].ident()->0.id implies rest[i].ident()->0.name
                == rest[j].ident()->0.name by {
                assert(decls[i].ident() is Some && decls[j].ident() is Some);
            }
        }
        lemma_index_first(rest, name);
        lemma_index_names(rest, name);
        let index = decl_index(rest);
        if decls[last].ident() is Some {
            lemma_insert_name(index, decls[last].ident()->0, last as usize, name);
        }
        if by_name(decl_index(decls), name) is Some {
            let key = (by_name(decl_index(decls), name)->0).0;
            if by_name(index, name) is Some {
                let n = choose|n: int|
                    declares_first(rest, name, n) && (#[trigger] rest[n]).ident() == Some(key);
                assert forall|j: int| 0 <= j < n implies ((
                #[trigger] decls[j]).ident() matches Some(ident) ==> ident.name != name) by {
                    assert(rest[j] == decls[j]);
                }
                assert(declares_first(decls, name, n) && decls[n].ident() == Some(key));
            } else {
                assert forall|j: int| 0 <= j < last implies ((
                #[trigger] decls[j]).ident() matches Some(ident) ==> ident.name != name) by {
                    assert(rest[j] == decls[j]);
                }
                assert(declares_first(decls, name, last) && decls[last].ident() == Some(key));
            }
        }
    }
}

/// What the identifier of a type expression becomes when its module is loaded.
///
/// An identifier that is bound inside its declaration stays as it is. Every other identifier
/// of the name of a declaration becomes that of the first declaration of the name; one of the
/// name of an import, public or not, becomes the key of the first import of the name; and one
/// of any other name stays as it is. What is said of declarations supposes that those of the
/// same identifier are of the same name.
pub open spec fn well_linked(
    decls: Seq<DeclView>,
    imports: ImportsView,
    before: TypeView,
    after: TypeView,
) -> bool {
    let name = before.ident.name;
    &&& after.path == before.path
    &&& after.local == before.local
    &&& after.nested.len() == before.nested.len()
    &&& after.ident.name == name
    &&& if before.local {
        after.ident == before.ident
    } else if declares_name(decls, name) {
        names_agree(decls) ==> exists|n: int|
            declares_first(decls, name, n) && (#[trigger] decls[n]).ident() == Some(after.ident)
    } else if imports_name(imports, name) {
        exists|m: int|
            0 <= m < imports.len() && (#[trigger] imports[m]).0 == after.ident && (forall|j: int|
                0 <= j < m ==> (#[trigger] imports[j]).0.name != name)
    } else {
        after.ident == before.ident
    }
}

proof fn lemma_well_linked(decls: Seq<DeclView>, imports: ImportsView, ty: TypeView)
    requires
        decls.len() <= usize::MAX,
    ensures
        well_linked(decls, imports, ty, ty.linked(decl_index(decls), imports)),
{
    let name = ty.ident.name;
    let index = decl_index(decls);
    if names_agree(decls) {
        lemma_index_names(decls, name);
        lemma_index_first(decls, name);
    }
    law_the_first_name_is_found(index, name);
    law_the_first_name_is_found(imports, name);
    if by_name(index, name) is Some {
        let e = by_name(index, name)->0;
        let i = choose|i: int| 0 <= i < index.len() && #[trigger] index[i] == e;
        lemma_index_key(decls, i);
        let n = choose|n: int|
            0 <= n < decls.len() && (#[trigger] decls[n]).ident() == Some(index[i].0);
        assert(decls[n].ident()->0.name == name);
    }
    if !declares_name(decls, name) && by_name(imports, name) is Some {
        let e = by_name(imports, name)->0;
        let m = choose|m: int|
            0 <= m < imports.len() && #[trigger] imports[m] == e && e.0.name == name && (
            forall|j: int| 0 <= j < m ==> (#[trigger] imports[j]).0.name != name);
        assert(imports[m].0.name == name);
    }
}

/// Loading a module keeps its path, its import statements, its directives and its declarations,
/// all of them in their order. Nothing is used at first.
pub proof fn law_loading_keeps_the_source(source: UnitView, path: PathView)
    ensures
        ({
            let module = loaded_module(source, path);
            &&& module.code.path == path
            &&& module.code.imports == import_table(source.imports, path)
            &&& module.code.source.imports == source.imports
            &&& module.code.source.directives == source.directives
            &&& module.code.source.declarations.len() == source.declarations.len()
            &&& module.used == Set::<u64>::empty()
        }),
{
}

/// Loading a module links its identifiers, in every type expression however deep, and changes
/// nothing else in its declarations: not the declared identifiers, nor their order.
pub proof fn law_loading_links_every_identifier(
    source: UnitView,
    path: PathView,
    n: int,
    route: Seq<int>,
)
    requires
        source.fits(),
        0 <= n < source.declarations.len(),
    ensures
        ({
            let module = loaded_module(source, path);
            let before = source.declarations[n];
            let after = module.code.source.declarations[n];
            &&& after.kind == before.kind
            &&& after.node == before.node
            &&& after.types.len() == before.types.len()
            &&& match type_at(before.types, route) {
                Some(ty) => type_at(after.types, route) matches Some(linked) && well_linked(
                    source.declarations,
                    import_table(source.imports, path),
                    ty,
                    linked,
                ),
                None => type_at(after.types, route) is None,
            }
        }),
{
    let decls = source.declarations;
    let imports = import_table(source.imports, path);
    let index = decl_index(decls);
    let link = |t: TypeView| t.linked(index, imports);
    assert forall|t: TypeView| (#[trigger] link(t)).nested == t.nested.map_values(link) by {
        assert(link(t).nested =~= t.nested.map_values(link));
    }
    lemma_mapped_at(decls[n].types, link, route);
    assert(linked_types(decls[n].types, index, imports) =~= decls[n].types.map_values(link));
    if type_at(decls[n].types, route) is Some {
        lemma_well_linked(decls, imports, type_at(decls[n].types, route)->0);
    }
}

/// In a loaded module, an identifier that is not bound inside its declaration and is of the
/// name of a declaration or an import is that of a declaration or an import.
pub proof fn lemma_linked_names(source: UnitView, path: PathView, n: int, k: int)
    requires
        source.fits(),
        names_agree(source.declarations),
        0 <= n < source.declarations.len(),
        0 <= k < post_orders(
            loaded_module(source, path).code.source.declarations[n].types,
        ).len(),
    ensures
        ({
            let code = loaded_module(source, path).code;
            let ty = post_orders(code.source.declarations[n].types)[k];
            !ty.local && (declares_name(code.source.declarations, ty.ident.name) || imports_name(
                code.imports,
                ty.ident.name,
            )) ==> code.declares(ty.ident.id) || by_id(code.imports, ty.ident.id) is Some
        }),
{
    let decls = source.declarations;
    let code = loaded_module(source, path).code;
    let imports = code.imports;
    let index = decl_index(decls);
    let link = |t: TypeView| t.linked(index, imports);
    assert forall|t: TypeView| (#[trigger] link(t)).nested == t.nested.map_values(link) by {
        assert(link(t).nested =~= t.nested.map_values(link));
    }
    lemma_mapped_orders(decls[n].types, link);
    assert(linked_types(decls[n].types, index, imports) =~= decls[n].types.map_values(link));
    let old_ty = post_orders(decls[n].types)[k];
    let ty = post_orders(code.source.declarations[n].types)[k];
    assert(ty == old_ty.linked(index, imports));
    lemma_well_linked(decls, imports, old_ty);
    let res = code.source.declarations;
    assert forall|i: int| 0 <= i < decls.len() implies (#[trigger] decls[i]).kind
        == res[i].kind by {}
    lemma_linked_index(decls, res);
    lemma_decl_index(decls);
    let name = ty.ident.name;
    if declares_name(res, name) {
        let i = choose|i: int|
            0 <= i < res.len() && ((#[trigger] res[i]).ident() matches Some(ident) && ident.name
                == name);
        assert(decls[i].ident() == res[i].ident());
    }
    if !ty.local && declares_name(decls, name) {
        let i = choose|i: int|
            declares_first(decls, name, i) && (#[trigger] decls[i]).ident() == Some(ty.ident);
        assert(by_id(index, decls[i].ident()->0.id) is Some);
    } else if !ty.local && imports_name(imports, name) {
        lemma_by_id(imports, ty.ident.id);
    }
}

} // verus!
