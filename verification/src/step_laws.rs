//! What holds of every reference and of every request: what they mean in their module.
use crate::error::ImportErrorView;
use crate::follow_laws::lemma_index_key;
use crate::imports::inline_path;
use crate::link_laws::{
    declares_first, declares_name, lemma_index_first, lemma_index_names, names_agree,
};
use crate::module::{lemma_decl_index, CodeView};
use crate::syntax::{DeclView, IdentView, TypeView};
use crate::table::{by_id, by_name, distinct_keys, lemma_by_id};
use crate::table_laws::{law_the_first_identifier_is_found, law_the_first_name_is_found};
use crate::usage::{
    analyze, decl_entrypoints, entrypoints, lemma_unmarked, post_orders, unmarked, walk, Analysis,
    EntryView, ExtView, Step,
};
use vstd::prelude::*;

verus! {

/// Whether no declaration and no import has the identifier numbered `id`.
pub open spec fn is_unknown(code: CodeView, id: u64) -> bool {
    &&& forall|n: int|
        0 <= n < code.source.declarations.len() ==> !(
        #[trigger] code.source.declarations[n]).declares(id)
    &&& forall|m: int| 0 <= m < code.imports.len() ==> (#[trigger] code.imports[m]).0.id != id
}

/// An identifier is in the index if it is declared, with the position of a declaration.
pub proof fn lemma_index_id(code: CodeView, id: u64)
    requires
        code.source.fits(),
    ensures
        by_id(code.idents(), id) is Some <==> exists|n: int|
            0 <= n < code.source.declarations.len() && (
            #[trigger] code.source.declarations[n]).declares(id),
        by_id(code.idents(), id) matches Some((_, n)) ==> n < code.source.declarations.len()
            && code.source.declarations[n as int].declares(id),
{
    let decls = code.source.declarations;
    lemma_decl_index(decls);
    lemma_by_id(code.idents(), id);
    if exists|n: int| 0 <= n < decls.len() && (#[trigger] decls[n]).declares(id) {
        let n = choose|n: int| 0 <= n < decls.len() && (#[trigger] decls[n]).declares(id);
        assert(by_id(code.idents(), decls[n].ident()->0.id) is Some);
    }
}

/// The entry of an import is found by its key.
pub proof fn lemma_import_found(code: CodeView, m: int)
    requires
        distinct_keys(code.imports),
        0 <= m < code.imports.len(),
    ensures
        by_id(code.imports, code.imports[m].0.id) == Some(code.imports[m]),
{
    let id = code.imports[m].0.id;
    lemma_by_id(code.imports, id);
    let j = choose|j: int|
        0 <= j < code.imports.len() && #[trigger] code.imports[j] == by_id(code.imports, id)->0;
    if j < m {
        assert(code.imports[j].0.id != code.imports[m].0.id);
    } else if m < j {
        assert(code.imports[m].0.id != code.imports[j].0.id);
    }
}

/// What is declared neither by identity nor by name is not found among the declarations.
pub proof fn lemma_undeclared(code: CodeView, ident: IdentView)
    requires
        code.source.fits(),
        names_agree(code.source.declarations),
        forall|n: int|
            0 <= n < code.source.declarations.len() ==> ((
            #[trigger] code.source.declarations[n]).ident() matches Some(decl) ==> decl.id
                != ident.id && decl.name != ident.name),
    ensures
        code.find_decl(ident) is None,
{
    let decls = code.source.declarations;
    lemma_index_id(code, ident.id);
    lemma_index_names(decls, ident.name);
    if by_id(code.idents(), ident.id) is Some {
        let n = (by_id(code.idents(), ident.id)->0).1 as int;
        assert(decls[n].ident() is Some);
    }
}

/// The import of an identifier is found, or else the first one of its name.
pub proof fn lemma_own_import(code: CodeView, ident: IdentView, m: int)
    requires
        distinct_keys(code.imports),
        0 <= m < code.imports.len(),
        code.imports[m].0.id == ident.id || (code.imports[m].0.name == ident.name && (forall|j: int|
            0 <= j < code.imports.len() ==> (#[trigger] code.imports[j]).0.id != ident.id) && (
        forall|j: int| 0 <= j < m ==> (#[trigger] code.imports[j]).0.name != ident.name)),
    ensures
        code.find_import(ident) == Some(code.imports[m]),
{
    if code.imports[m].0.id == ident.id {
        lemma_import_found(code, m);
    } else {
        law_the_first_identifier_is_found(code.imports, ident.id);
        law_the_first_name_is_found(code.imports, ident.name);
        let e = by_name(code.imports, ident.name)->0;
        let i = choose|i: int|
            0 <= i < code.imports.len() && #[trigger] code.imports[i] == e && e.0.name
                == ident.name && (forall|j: int|
                0 <= j < i ==> (#[trigger] code.imports[j]).0.name != ident.name);
        if i < m {
            assert(code.imports[i].0.name != ident.name);
        } else if m < i {
            assert(code.imports[m].0.name != ident.name);
        }
    }
}

/// A type expression without a path, whose identifier is imported, refers to the item that is
/// imported, under the name that it has where it is imported from. Whether the import is
/// public makes no difference.
pub proof fn law_imported_identifiers_refer_to_their_items(code: CodeView, ty: TypeView, m: int)
    requires
        distinct_keys(code.imports),
        ty.path is None,
        0 <= m < code.imports.len(),
        code.imports[m].0.id == ty.ident.id,
        code.imports[m].1.path != code.path,
    ensures
        code.reference(ty) == Step::Refer(
            ExtView {
                from: code.path,
                path: code.imports[m].1.path,
                ident: code.imports[m].1.ident,
            },
        ),
{
    lemma_import_found(code, m);
}

/// A type expression with a path refers to its identifier in the module that the path means.
pub proof fn law_inline_paths_refer_to_other_modules(code: CodeView, ty: TypeView)
    requires
        ty.path is Some,
        inline_path(ty.path->0, code.path, code.imports) != code.path,
    ensures
        code.reference(ty) == Step::Refer(
            ExtView {
                from: code.path,
                path: inline_path(ty.path->0, code.path, code.imports),
                ident: ty.ident,
            },
        ),
{
}

/// A type expression without a path, whose identifier is declared and not imported, means a
/// declaration of the identifier.
pub proof fn law_declared_identifiers_mean_their_declarations(
    code: CodeView,
    ty: TypeView,
    n: int,
)
    requires
        code.source.fits(),
        ty.path is None,
        0 <= n < code.source.declarations.len(),
        code.source.declarations[n].declares(ty.ident.id),
        forall|m: int|
            0 <= m < code.imports.len() ==> (#[trigger] code.imports[m]).0.id != ty.ident.id,
    ensures
        code.reference(ty) matches Step::Enter(k) && k < code.source.declarations.len()
            && code.source.declarations[k as int].declares(ty.ident.id),
{
    lemma_index_id(code, ty.ident.id);
    lemma_by_id(code.imports, ty.ident.id);
}

/// A type expression without a path, whose identifier is neither declared nor imported, is a
/// builtin or bound elsewhere.
pub proof fn law_other_identifiers_are_left_alone(code: CodeView, ty: TypeView)
    requires
        code.source.fits(),
        ty.path is None,
        is_unknown(code, ty.ident.id),
    ensures
        code.reference(ty) == Step::Skip,
{
    lemma_index_id(code, ty.ident.id);
    lemma_by_id(code.imports, ty.ident.id);
}

/// A type expression that leads back to its own module makes nothing used, if its identifier
/// is declared, and is an error if it is not.
pub proof fn law_own_paths_have_to_exist(code: CodeView, ty: TypeView, m: int)
    requires
        code.source.fits(),
        distinct_keys(code.imports),
        match ty.path {
            Some(path) => inline_path(path, code.path, code.imports) == code.path,
            None => 0 <= m < code.imports.len() && code.imports[m].0.id == ty.ident.id
                && code.imports[m].1.path == code.path,
        },
    ensures
        (exists|n: int|
            0 <= n < code.source.declarations.len() && (
            #[trigger] code.source.declarations[n]).declares(ty.ident.id)) ==> code.reference(ty)
            == Step::Skip,
        (forall|n: int|
            0 <= n < code.source.declarations.len() ==> !(
            #[trigger] code.source.declarations[n]).declares(ty.ident.id)) ==> code.reference(ty)
            == Step::Fail(ImportErrorView::MissingDecl(code.path, ty.ident.name)),
{
    lemma_index_id(code, ty.ident.id);
    if ty.path is None {
        lemma_import_found(code, m);
    }
}

/// A module that is asked for an identifier answers with a declaration of it, if there is
/// one, and else with a declaration of the identifier that first has its name.
pub proof fn law_requests_mean_declarations(code: CodeView, ident: IdentView, n: int)
    requires
        code.source.fits(),
        names_agree(code.source.declarations),
        0 <= n < code.source.declarations.len(),
        code.source.declarations[n].ident() matches Some(decl) && (decl.id == ident.id
            || decl.name == ident.name),
    ensures
        code.request(ident) matches Step::Enter(k) && k < code.source.declarations.len() && (
        code.source.declarations[k as int].ident() matches Some(decl) && if exists|j: int|
            0 <= j < code.source.declarations.len() && (
            #[trigger] code.source.declarations[j]).declares(ident.id) {
            decl.id == ident.id
        } else {
            decl.name == ident.name && exists|j: int|
                declares_first(code.source.declarations, ident.name, j) && (
                #[trigger] code.source.declarations[j]).declares(decl.id)
        }),
{
    let decls = code.source.declarations;
    lemma_index_id(code, ident.id);
    lemma_decl_index(decls);
    lemma_index_names(decls, ident.name);
    assert(decls[n].ident() is Some);
    if by_id(code.idents(), ident.id) is None {
        if decls[n].ident()->0.id == ident.id {
            assert(decls[n].declares(ident.id));
        }
        assert(declares_name(decls, ident.name));
        let (key, k) = by_name(code.idents(), ident.name)->0;
        law_the_first_name_is_found(code.idents(), ident.name);
        let i = choose|i: int|
            0 <= i < code.idents().len() && #[trigger] code.idents()[i] == (key, k);
        assert(decls[k as int].declares(key.id));
        lemma_index_key(decls, i);
        let j = choose|j: int|
            0 <= j < decls.len() && (#[trigger] decls[j]).ident() == Some(code.idents()[i].0);
        assert(decls[k as int].ident()->0.name == decls[j].ident()->0.name);
        lemma_index_first(decls, ident.name);
        let first = choose|first: int|
            declares_first(decls, ident.name, first) && (#[trigger] decls[first]).ident() == Some(
                key,
            );
        assert(decls[first].declares(key.id));
    }
}

/// A module that is asked for something that it does not declare answers with an import of the
/// identifier or of its name: with the item if the import is public, and with an error if it
/// is not.
pub proof fn law_requests_mean_public_imports(code: CodeView, ident: IdentView)
    requires
        code.source.fits(),
        names_agree(code.source.declarations),
        forall|n: int|
            0 <= n < code.source.declarations.len() ==> ((
            #[trigger] code.source.declarations[n]).ident() matches Some(decl) ==> decl.id
                != ident.id && decl.name != ident.name),
    ensures
        (exists|m: int|
            0 <= m < code.imports.len() && ((#[trigger] code.imports[m]).0.id == ident.id
                || code.imports[m].0.name == ident.name)) ==> exists|m: int|
            0 <= m < code.imports.len() && ((#[trigger] code.imports[m]).0.id == ident.id
                || code.imports[m].0.name == ident.name) && code.request(ident)
                == if code.imports[m].1.public {
                Step::Refer(
                    ExtView {
                        from: code.path,
                        path: code.imports[m].1.path,
                        ident: code.imports[m].1.ident,
                    },
                )
            } else {
                Step::Fail(ImportErrorView::Private(ident.name, code.path))
            },
        (forall|m: int|
            0 <= m < code.imports.len() ==> (#[trigger] code.imports[m]).0.id != ident.id
                && code.imports[m].0.name != ident.name) ==> code.request(ident) == Step::Fail(
            ImportErrorView::MissingDecl(code.path, ident.name),
        ),
{
    lemma_undeclared(code, ident);
    law_the_first_identifier_is_found(code.imports, ident.id);
    law_the_first_name_is_found(code.imports, ident.name);
    if code.find_import(ident) is Some {
        let e = code.find_import(ident)->0;
        let m = choose|m: int| 0 <= m < code.imports.len() && #[trigger] code.imports[m] == e;
        assert(code.imports[m].0.id == ident.id || code.imports[m].0.name == ident.name);
    }
}

/// The identifier of an import comes before its name: a module that is asked for an identifier
/// which it imports, and declares neither that nor its name, answers with this import.
pub proof fn law_requests_prefer_the_own_import(code: CodeView, ident: IdentView, m: int)
    requires
        code.source.fits(),
        names_agree(code.source.declarations),
        distinct_keys(code.imports),
        forall|n: int|
            0 <= n < code.source.declarations.len() ==> ((
            #[trigger] code.source.declarations[n]).ident() matches Some(decl) ==> decl.id
                != ident.id && decl.name != ident.name),
        0 <= m < code.imports.len(),
        code.imports[m].0.id == ident.id || (code.imports[m].0.name == ident.name && (forall|j: int|
            0 <= j < code.imports.len() ==> (#[trigger] code.imports[j]).0.id != ident.id) && (
        forall|j: int| 0 <= j < m ==> (#[trigger] code.imports[j]).0.name != ident.name)),
    ensures
        code.request(ident) == if code.imports[m].1.public {
            Step::Refer(
                ExtView {
                    from: code.path,
                    path: code.imports[m].1.path,
                    ident: code.imports[m].1.ident,
                },
            )
        } else {
            Step::Fail(ImportErrorView::Private(ident.name, code.path))
        },
{
    lemma_undeclared(code, ident);
    lemma_own_import(code, ident, m);
}

/// References are followed one after the other: those of two lists like those of the first,
/// and then, with what is used and found by then, those of the second. Nothing of the second
/// is looked at if the first fails.
pub proof fn law_references_are_followed_in_order(
    code: CodeView,
    used: Set<u64>,
    items: Seq<ExtView>,
    a: Seq<TypeView>,
    b: Seq<TypeView>,
)
    ensures
        ({
            let first = walk(code, used, items, a);
            walk(code, used, items, a + b) == match first.outcome {
                Ok(found) => walk(code, first.used, found, b),
                Err(_) => first,
            }
        }),
    decreases unmarked(code.source.declarations, used), a.len(),
{
    if a.len() == 0 {
        assert(a + b =~= b);
    } else {
        let rest = a.drop_first();
        assert((a + b)[0] == a[0]);
        assert((a + b).drop_first() =~= rest + b);
        match code.reference(a[0]) {
            Step::Skip => law_references_are_followed_in_order(code, used, items, rest, b),
            Step::Enter(n) => {
                if code.fresh(used, n) {
                    let decl = code.source.declarations[n as int];
                    assert(decl.declares(decl.ident()->0.id));
                    lemma_unmarked(code.source.declarations, used, decl.ident()->0.id);
                    let inner = code.types_of(n);
                    assert(inner + (rest + b) =~= (inner + rest) + b);
                    law_references_are_followed_in_order(
                        code,
                        code.mark(used, n),
                        items,
                        inner + rest,
                        b,
                    );
                } else {
                    law_references_are_followed_in_order(code, used, items, rest, b);
                }
            },
            Step::Refer(item) => {
                law_references_are_followed_in_order(code, used, items.push(item), rest, b);
            },
            Step::Fail(_) => {},
        }
    }
}

/// What a single reference does. One to a declaration that is not used yet makes it used and
/// then follows all its references; one to a declaration that is used does nothing. One to
/// another module is found. One that fails ends the analysis.
pub proof fn law_a_reference_is_followed(
    code: CodeView,
    used: Set<u64>,
    items: Seq<ExtView>,
    ty: TypeView,
)
    ensures
        ({
            let res = walk(code, used, items, seq![ty]);
            match code.reference(ty) {
                Step::Skip => res == (Analysis { used, outcome: Ok(items) }),
                Step::Enter(n) => n < code.source.declarations.len() ==> (
                code.source.declarations[n as int].ident() matches Some(ident) ==> if used.contains(
                    ident.id,
                ) {
                    res == (Analysis { used, outcome: Ok(items) })
                } else {
                    res == walk(
                        code,
                        used.insert(ident.id),
                        items,
                        post_orders(code.source.declarations[n as int].types),
                    )
                }),
                Step::Refer(item) => res == (Analysis { used, outcome: Ok(items.push(item)) }),
                Step::Fail(e) => res == (Analysis { used, outcome: Err(e) }),
            }
        }),
{
    let one = seq![ty];
    let none = Seq::<TypeView>::empty();
    assert(one.drop_first() =~= none);
    assert(walk(code, used, items, none) == (Analysis { used, outcome: Ok(items) }));
    if code.reference(ty) is Refer {
        let more = items.push(code.reference(ty)->Refer_0);
        assert(walk(code, used, more, none) == (Analysis { used, outcome: Ok(more) }));
    }
    if code.reference(ty) is Enter {
        let n = code.reference(ty)->Enter_0;
        assert(code.types_of(n) + none =~= code.types_of(n));
    }
}

/// What a single entrypoint does. A declaration has its references followed. An identifier
/// makes the declaration used that it means, unless it is used already, and follows its
/// references; or it finds the item that it means; or it is an error.
pub proof fn law_an_entrypoint_is_followed(
    code: CodeView,
    used: Set<u64>,
    items: Seq<ExtView>,
    entry: EntryView,
)
    ensures
        ({
            let res = analyze(code, used, items, seq![entry]);
            match entry {
                EntryView::Decl(n) => res == walk(
                    code,
                    used,
                    items,
                    post_orders(code.source.declarations[n as int].types),
                ),
                EntryView::Ident(ident) => match code.request(ident) {
                    Step::Skip => true,
                    Step::Enter(n) => n < code.source.declarations.len() ==> (
                    code.source.declarations[n as int].ident() matches Some(decl)
                        ==> if used.contains(decl.id) {
                        res == (Analysis { used, outcome: Ok(items) })
                    } else {
                        res == walk(
                            code,
                            used.insert(decl.id),
                            items,
                            post_orders(code.source.declarations[n as int].types),
                        )
                    }),
                    Step::Refer(item) => res == (Analysis {
                        used,
                        outcome: Ok(items.push(item)),
                    }),
                    Step::Fail(e) => res == (Analysis { used, outcome: Err(e) }),
                },
            }
        }),
{
    let one = seq![entry];
    assert(one.drop_first() =~= Seq::empty());
    reveal_with_fuel(analyze, 2);
}

/// In eager mode every declaration is an entrypoint, in source order: by its identifier, or by
/// its position if it has none.
pub proof fn law_eager_entrypoints_are_all_declarations(decls: Seq<DeclView>)
    requires
        decls.len() <= usize::MAX,
    ensures
        entrypoints(decls, true).len() == decls.len(),
        forall|n: int|
            0 <= n < decls.len() ==> #[trigger] entrypoints(decls, true)[n]
                == match decls[n].ident() {
                Some(ident) => EntryView::Ident(ident),
                None => EntryView::Decl(n as usize),
            },
    decreases decls.len(),
{
    if decls.len() > 0 {
        let rest = decls.drop_last();
        law_eager_entrypoints_are_all_declarations(rest);
        let prev = entrypoints(rest, true);
        let res = entrypoints(decls, true);
        assert(res == prev + decl_entrypoints(decls.last(), (decls.len() - 1) as usize, true));
        assert forall|n: int| 0 <= n < decls.len() implies #[trigger] res[n]
            == match decls[n].ident() {
            Some(ident) => EntryView::Ident(ident),
            None => EntryView::Decl(n as usize),
        } by {
            if n < rest.len() {
                assert(res[n] == prev[n]);
                assert(rest[n] == decls[n]);
            }
        }
    }
}

/// In lazy mode the entrypoints of a module are its `const_assert`s, each of them once, in
/// source order.
pub proof fn law_lazy_entrypoints_are_the_const_asserts(decls: Seq<DeclView>)
    requires
        decls.len() <= usize::MAX,
    ensures
        forall|k: int|
            0 <= k < entrypoints(decls, false).len() ==> ((
            #[trigger] entrypoints(decls, false)[k]) matches EntryView::Decl(n) && n < decls.len()
                && decls[n as int].kind is ConstAssert),
        forall|n: int|
            0 <= n < decls.len() && (#[trigger] decls[n]).kind is ConstAssert ==> entrypoints(
                decls,
                false,
            ).contains(EntryView::Decl(n as usize)),
        forall|j: int, k: int|
            0 <= j < k < entrypoints(decls, false).len() ==> (#[trigger] entrypoints(
                decls,
                false,
            )[j])->Decl_0 < (#[trigger] entrypoints(decls, false)[k])->Decl_0,
    decreases decls.len(),
{
    if decls.len() > 0 {
        let rest = decls.drop_last();
        law_lazy_entrypoints_are_the_const_asserts(rest);
        let prev = entrypoints(rest, false);
        let last = decl_entrypoints(decls.last(), (decls.len() - 1) as usize, false);
        let res = entrypoints(decls, false);
        assert(res == prev + last);
        assert forall|k: int| 0 <= k < res.len() implies ((
        #[trigger] res[k]) matches EntryView::Decl(n) && n < decls.len()
            && decls[n as int].kind is ConstAssert) by {
            if k < prev.len() {
                assert(res[k] == prev[k]);
                assert(rest[prev[k]->Decl_0 as int] == decls[prev[k]->Decl_0 as int]);
            }
        }
        assert forall|n: int|
            0 <= n < decls.len() && (#[trigger] decls[n]).kind is ConstAssert implies res.contains(
            EntryView::Decl(n as usize),
        ) by {
            if n < rest.len() {
                assert(rest[n] == decls[n]);
                let k = choose|k: int|
                    0 <= k < prev.len() && prev[k] == EntryView::Decl(n as usize);
                assert(res[k] == prev[k]);
            } else {
                assert(res[prev.len() as int] == EntryView::Decl(n as usize));
            }
        }
        assert forall|j: int, k: int| 0 <= j < k < res.len() implies (
        #[trigger] res[j])->Decl_0 < (#[trigger] res[k])->Decl_0 by {
            assert(res[j] == prev[j]);
            if k < prev.len() {
                assert(res[k] == prev[k]);
            }
        }
    }
}

} // verus!
