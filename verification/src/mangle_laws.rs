//! What holds of every mangling: who gets a new name, and where the new names show.
use crate::imports::ImportsView;
use crate::link_laws::{lemma_mapped_at, type_at};
use crate::mangle::{
    decl_targets, lemma_renamed_id, mangle_targets, mangled, Mangler, RenamesView,
};
use crate::module::ModuleView;
use crate::resolutions::ResolutionsView;
use crate::syntax::{
    ContentView, DeclView, IdentView, ImportItemView, ImportView, KindView, ModulePath, PathView,
    StatementView, TypeView,
};
use vstd::prelude::*;

verus! {

/// Where a declared identifier stands among those that are to be mangled in its module.
proof fn lemma_decl_target(decls: Seq<DeclView>, path: PathView, n: int) -> (k: int)
    requires
        0 <= n < decls.len(),
        decls[n].ident() is Some,
    ensures
        0 <= k < decl_targets(decls, path).len(),
        decl_targets(decls, path)[k] == (path, decls[n].ident()->0),
    decreases decls.len(),
{
    let prev = decl_targets(decls.drop_last(), path);
    if n < decls.len() - 1 {
        assert(decls.drop_last()[n] == decls[n]);
        lemma_decl_target(decls.drop_last(), path, n)
    } else {
        prev.len() as int
    }
}

/// Where a declared identifier stands among those that are to be mangled.
proof fn lemma_mangle_target(
    modules: Seq<ModuleView>,
    root_path: PathView,
    mangle_root: bool,
    i: int,
    n: int,
) -> (k: int)
    requires
        0 <= i < modules.len(),
        mangle_root || modules[i].code.path != root_path,
        0 <= n < modules[i].code.source.declarations.len(),
        modules[i].code.source.declarations[n].ident() is Some,
    ensures
        0 <= k < mangle_targets(modules, root_path, mangle_root).len(),
        mangle_targets(modules, root_path, mangle_root)[k] == (
            modules[i].code.path,
            modules[i].code.source.declarations[n].ident()->0,
        ),
    decreases modules.len(),
{
    let rest = modules.drop_last();
    let prev = mangle_targets(rest, root_path, mangle_root);
    if i < rest.len() {
        assert(rest[i] == modules[i]);
        lemma_mangle_target(rest, root_path, mangle_root, i, n)
    } else {
        let code = modules.last().code;
        let k = lemma_decl_target(code.source.declarations, code.path, n);
        prev.len() + k
    }
}

/// Mangling renames every declaration of every module: whatever module it is in, other than the
/// root, and the root too if that is asked for, a declared identifier gets a new name, which is
/// what the mangler answered for the path of that module and the name that the identifier had
/// by then.
pub proof fn law_every_declaration_is_mangled<M: Mangler>(
    mangler: &M,
    modules: Seq<ModuleView>,
    root_path: PathView,
    mangle_root: bool,
    renames: RenamesView,
    i: int,
    n: int,
) -> (k: int)
    requires
        mangled(mangler, mangle_targets(modules, root_path, mangle_root), renames, 0),
        0 <= i < modules.len(),
        mangle_root || modules[i].code.path != root_path,
        0 <= n < modules[i].code.source.declarations.len(),
        modules[i].code.source.declarations[n].ident() is Some,
    ensures
        0 <= k < renames.len(),
        ({
            let ident = modules[i].code.source.declarations[n].ident()->0;
            renames[k].0 == ident.id && exists|p: ModulePath, item: &str, res: String|
                {
                    &&& #[trigger] call_ensures(M::mangle, (mangler, &p, item), res)
                    &&& p@ == modules[i].code.path
                    &&& item@ == ident.renamed(renames.take(k)).name
                    &&& res@ == renames[k].1
                }
        }),
{
    let targets = mangle_targets(modules, root_path, mangle_root);
    let k = lemma_mangle_target(modules, root_path, mangle_root, i, n);
    assert(targets[k] == (
        modules[i].code.path,
        modules[i].code.source.declarations[n].ident()->0,
    ));
    assert(renames[0 + k] == renames[k]);
    k
}

/// Where a target of the mangling of a module is declared.
proof fn lemma_decl_of_target(decls: Seq<DeclView>, path: PathView, k: int) -> (n: int)
    requires
        0 <= k < decl_targets(decls, path).len(),
    ensures
        0 <= n < decls.len(),
        decls[n].ident() is Some,
        decl_targets(decls, path)[k] == (path, decls[n].ident()->0),
    decreases decls.len(),
{
    let prev = decl_targets(decls.drop_last(), path);
    if k < prev.len() {
        let n = lemma_decl_of_target(decls.drop_last(), path, k);
        assert(decls.drop_last()[n] == decls[n]);
        n
    } else {
        decls.len() - 1
    }
}

/// Where a target of the mangling is declared.
proof fn lemma_module_of_target(
    modules: Seq<ModuleView>,
    root_path: PathView,
    mangle_root: bool,
    k: int,
) -> (place: (int, int))
    requires
        0 <= k < mangle_targets(modules, root_path, mangle_root).len(),
    ensures
        0 <= place.0 < modules.len(),
        mangle_root || modules[place.0].code.path != root_path,
        0 <= place.1 < modules[place.0].code.source.declarations.len(),
        modules[place.0].code.source.declarations[place.1].ident() is Some,
        mangle_targets(modules, root_path, mangle_root)[k] == (
            modules[place.0].code.path,
            modules[place.0].code.source.declarations[place.1].ident()->0,
        ),
    decreases modules.len(),
{
    let rest = modules.drop_last();
    let prev = mangle_targets(rest, root_path, mangle_root);
    if k < prev.len() {
        let place = lemma_module_of_target(rest, root_path, mangle_root, k);
        assert(rest[place.0] == modules[place.0]);
        place
    } else {
        let code = modules.last().code;
        let n = lemma_decl_of_target(code.source.declarations, code.path, k - prev.len());
        (modules.len() - 1, n)
    }
}

/// Mangling renames nothing but declarations of the modules that it concerns.
pub proof fn law_only_declarations_are_mangled<M: Mangler>(
    mangler: &M,
    modules: Seq<ModuleView>,
    root_path: PathView,
    mangle_root: bool,
    renames: RenamesView,
    k: int,
) -> (place: (int, int))
    requires
        mangled(mangler, mangle_targets(modules, root_path, mangle_root), renames, 0),
        0 <= k < renames.len(),
    ensures
        0 <= place.0 < modules.len(),
        mangle_root || modules[place.0].code.path != root_path,
        0 <= place.1 < modules[place.0].code.source.declarations.len(),
        modules[place.0].code.source.declarations[place.1].declares(renames[k].0),
{
    let targets = mangle_targets(modules, root_path, mangle_root);
    let place = lemma_module_of_target(modules, root_path, mangle_root, k);
    assert(targets[k].1.id == renames[0 + k].0);
    place
}

/// Whether no two declarations of the modules that are mangled declare the same identifier.
pub open spec fn declared_once(
    modules: Seq<ModuleView>,
    root_path: PathView,
    mangle_root: bool,
) -> bool {
    forall|i: int, n: int, j: int, m: int, id: u64|
        {
            &&& 0 <= i < modules.len() && (mangle_root || modules[i].code.path != root_path)
            &&& 0 <= j < modules.len() && (mangle_root || modules[j].code.path != root_path)
            &&& 0 <= n < modules[i].code.source.declarations.len()
            &&& 0 <= m < modules[j].code.source.declarations.len()
            &&& #[trigger] modules[i].code.source.declarations[n].declares(id)
            &&& #[trigger] modules[j].code.source.declarations[m].declares(id)
        } ==> i == j && n == m
}

/// The targets in a module are distinct if its declarations are.
proof fn lemma_decl_targets_distinct(decls: Seq<DeclView>, path: PathView, k: int, l: int)
    requires
        forall|n: int, m: int, id: u64|
            0 <= n < decls.len() && 0 <= m < decls.len() && #[trigger] decls[n].declares(id)
                && #[trigger] decls[m].declares(id) ==> n == m,
        0 <= k < l < decl_targets(decls, path).len(),
    ensures
        decl_targets(decls, path)[k].1.id != decl_targets(decls, path)[l].1.id,
    decreases decls.len(),
{
    let rest = decls.drop_last();
    let prev = decl_targets(rest, path);
    assert forall|n: int, m: int, id: u64|
        0 <= n < rest.len() && 0 <= m < rest.len() && #[trigger] rest[n].declares(id)
            && #[trigger] rest[m].declares(id) implies n == m by {
        assert(decls[n].declares(id) && decls[m].declares(id));
    }
    if l < prev.len() {
        lemma_decl_targets_distinct(rest, path, k, l);
    } else {
        let n = lemma_decl_of_target(rest, path, k);
        let id = decl_targets(decls, path)[k].1.id;
        assert(decls[n].declares(id));
        if decl_targets(decls, path)[l].1.id == id {
            assert(decls[decls.len() - 1].declares(id));
        }
    }
}

/// The targets are distinct if the declarations are.
proof fn lemma_targets_distinct(
    modules: Seq<ModuleView>,
    root_path: PathView,
    mangle_root: bool,
    k: int,
    l: int,
)
    requires
        declared_once(modules, root_path, mangle_root),
        0 <= k < l < mangle_targets(modules, root_path, mangle_root).len(),
    ensures
        mangle_targets(modules, root_path, mangle_root)[k].1.id != mangle_targets(
            modules,
            root_path,
            mangle_root,
        )[l].1.id,
    decreases modules.len(),
{
    let rest = modules.drop_last();
    let prev = mangle_targets(rest, root_path, mangle_root);
    let targets = mangle_targets(modules, root_path, mangle_root);
    let last = modules.len() - 1;
    let code = modules[last].code;
    let decls = code.source.declarations;
    if l < prev.len() {
        assert forall|i: int, n: int, j: int, m: int, id: u64|
            {
                &&& 0 <= i < rest.len() && (mangle_root || rest[i].code.path != root_path)
                &&& 0 <= j < rest.len() && (mangle_root || rest[j].code.path != root_path)
                &&& 0 <= n < rest[i].code.source.declarations.len()
                &&& 0 <= m < rest[j].code.source.declarations.len()
                &&& #[trigger] rest[i].code.source.declarations[n].declares(id)
                &&& #[trigger] rest[j].code.source.declarations[m].declares(id)
            } implies i == j && n == m by {
            assert(modules[i].code.source.declarations[n].declares(id));
            assert(modules[j].code.source.declarations[m].declares(id));
        }
        lemma_targets_distinct(rest, root_path, mangle_root, k, l);
    } else if prev.len() <= k {
        assert forall|n: int, m: int, id: u64|
            0 <= n < decls.len() && 0 <= m < decls.len() && #[trigger] decls[n].declares(id)
                && #[trigger] decls[m].declares(id) implies n == m by {
            assert(modules[last].code.source.declarations[n].declares(id));
            assert(modules[last].code.source.declarations[m].declares(id));
        }
        lemma_decl_targets_distinct(decls, code.path, k - prev.len(), l - prev.len());
    } else {
        let (i, n) = lemma_module_of_target(rest, root_path, mangle_root, k);
        let m = lemma_decl_of_target(decls, code.path, l - prev.len());
        let id = targets[k].1.id;
        assert(modules[i].code.source.declarations[n].declares(id));
        if targets[l].1.id == id {
            assert(modules[last].code.source.declarations[m].declares(id));
        }
    }
}

/// Where no identifier is declared twice, a mangled declaration is called afterwards what the
/// mangler answered for the path of its module and the name that it had in the source.
pub proof fn law_mangled_names_are_answers<M: Mangler>(
    mangler: &M,
    modules: Seq<ModuleView>,
    root_path: PathView,
    mangle_root: bool,
    renames: RenamesView,
    i: int,
    n: int,
)
    requires
        mangled(mangler, mangle_targets(modules, root_path, mangle_root), renames, 0),
        declared_once(modules, root_path, mangle_root),
        0 <= i < modules.len(),
        mangle_root || modules[i].code.path != root_path,
        0 <= n < modules[i].code.source.declarations.len(),
        modules[i].code.source.declarations[n].ident() is Some,
    ensures
        ({
            let ident = modules[i].code.source.declarations[n].ident()->0;
            exists|p: ModulePath, item: &str, res: String|
                {
                    &&& #[trigger] call_ensures(M::mangle, (mangler, &p, item), res)
                    &&& p@ == modules[i].code.path
                    &&& item@ == ident.name
                    &&& res@ == modules[i].renamed(
                        renames,
                    ).code.source.declarations[n].ident()->0.name
                }
        }),
{
    let ident = modules[i].code.source.declarations[n].ident()->0;
    let targets = mangle_targets(modules, root_path, mangle_root);
    let k = law_every_declaration_is_mangled(
        mangler,
        modules,
        root_path,
        mangle_root,
        renames,
        i,
        n,
    );
    assert(targets[k].1.id == renames[0 + k].0);
    assert forall|l: int| 0 <= l < renames.len() && l != k implies (#[trigger] renames[l]).0
        != ident.id by {
        assert(targets[l].1.id == renames[0 + l].0);
        if l < k {
            lemma_targets_distinct(modules, root_path, mangle_root, l, k);
        } else {
            lemma_targets_distinct(modules, root_path, mangle_root, k, l);
        }
    }
    let before = renames.take(k);
    assert forall|l: int| 0 <= l < before.len() implies (#[trigger] before[l]).0 != ident.id by {
        assert(before[l] == renames[l]);
    }
    law_the_last_renaming_counts(ident, before, 0);
    law_the_last_renaming_counts(ident, renames, k);
    assert(modules[i].renamed(renames).code.source.declarations[n]
        == modules[i].code.source.declarations[n].renamed(renames));
}

/// The mangler is asked module by module, and in each module in source order: about the
/// declarations that have an identifier, each once, and about nothing in a module that is
/// spared.
pub proof fn law_the_mangler_is_asked_in_order(
    a: Seq<ModuleView>,
    b: Seq<ModuleView>,
    module: ModuleView,
    root_path: PathView,
    mangle_root: bool,
)
    ensures
        mangle_targets(a + b, root_path, mangle_root) == mangle_targets(a, root_path, mangle_root)
            + mangle_targets(b, root_path, mangle_root),
        mangle_root || module.code.path != root_path ==> mangle_targets(
            seq![module],
            root_path,
            mangle_root,
        ) == decl_targets(module.code.source.declarations, module.code.path),
        !mangle_root && module.code.path == root_path ==> mangle_targets(
            seq![module],
            root_path,
            mangle_root,
        ).len() == 0,
    decreases b.len(),
{
    let none = Seq::<ModuleView>::empty();
    assert(mangle_targets(none, root_path, mangle_root) =~= Seq::empty());
    assert(seq![module].drop_last() =~= none);
    assert(seq![module].last() == module);
    assert(mangle_targets(seq![module], root_path, mangle_root) =~= if mangle_root
        || module.code.path != root_path {
        decl_targets(module.code.source.declarations, module.code.path)
    } else {
        Seq::empty()
    });
    if b.len() == 0 {
        assert(a + b =~= a);
        assert(mangle_targets(a, root_path, mangle_root) + mangle_targets(
            b,
            root_path,
            mangle_root,
        ) =~= mangle_targets(a, root_path, mangle_root));
    } else {
        let rest = b.drop_last();
        law_the_mangler_is_asked_in_order(a, rest, module, root_path, mangle_root);
        assert((a + b).drop_last() =~= a + rest);
        assert((a + b).last() == b.last());
        assert(mangle_targets(a + b, root_path, mangle_root) =~= mangle_targets(
            a,
            root_path,
            mangle_root,
        ) + mangle_targets(b, root_path, mangle_root));
    }
}

/// In a module the mangler is asked about the declarations that have an identifier, in source
/// order, each once.
pub proof fn law_declarations_are_mangled_in_order(
    a: Seq<DeclView>,
    b: Seq<DeclView>,
    decl: DeclView,
    path: PathView,
)
    ensures
        decl_targets(a + b, path) == decl_targets(a, path) + decl_targets(b, path),
        decl.kind matches KindView::Named(ident) ==> decl_targets(seq![decl], path) == seq![
            (path, ident),
        ],
        !(decl.kind is Named) ==> decl_targets(seq![decl], path).len() == 0,
    decreases b.len(),
{
    let none = Seq::<DeclView>::empty();
    assert(decl_targets(none, path) =~= Seq::empty());
    assert(seq![decl].drop_last() =~= none);
    assert(seq![decl].last() == decl);
    if decl.kind is Named {
        assert(decl_targets(seq![decl], path) =~= seq![(path, decl.ident()->0)]);
    }
    if b.len() == 0 {
        assert(a + b =~= a);
        assert(decl_targets(a, path) + decl_targets(b, path) =~= decl_targets(a, path));
    } else {
        let rest = b.drop_last();
        law_declarations_are_mangled_in_order(a, rest, decl, path);
        assert((a + b).drop_last() =~= a + rest);
        assert((a + b).last() == b.last());
        assert(decl_targets(a + b, path) =~= decl_targets(a, path) + decl_targets(b, path));
    }
}

/// Renaming gives an identifier the name of the last renaming that concerns it, and leaves it
/// alone if there is none. It is the same identifier in any case.
pub proof fn law_the_last_renaming_counts(ident: IdentView, renames: RenamesView, k: int)
    ensures
        ident.renamed(renames).id == ident.id,
        0 <= k < renames.len() && renames[k].0 == ident.id && (forall|l: int|
            k < l < renames.len() ==> (#[trigger] renames[l]).0 != ident.id)
            ==> ident.renamed(renames).name == renames[k].1,
        (forall|l: int| 0 <= l < renames.len() ==> (#[trigger] renames[l]).0 != ident.id)
            ==> ident.renamed(renames) == ident,
    decreases renames.len(),
{
    lemma_renamed_id(ident, renames);
    if renames.len() > 0 {
        let rest = renames.drop_last();
        law_the_last_renaming_counts(ident, rest, k);
        assert(renames.last() == renames[renames.len() - 1]);
        assert forall|l: int| 0 <= l < rest.len() implies #[trigger] rest[l] == renames[l] by {}
    }
}

/// Renaming reaches every type expression, however deep it is nested, and changes nothing in it
/// but its identifier.
pub proof fn law_renaming_reaches_every_type_expression(
    decl: DeclView,
    renames: RenamesView,
    route: Seq<int>,
)
    ensures
        match type_at(decl.types, route) {
            Some(ty) => type_at(decl.renamed(renames).types, route) matches Some(res) && {
                &&& res.ident == ty.ident.renamed(renames)
                &&& res.path == ty.path
                &&& res.local == ty.local
                &&& res.nested.len() == ty.nested.len()
            },
            None => type_at(decl.renamed(renames).types, route) is None,
        },
{
    let rename = |t: TypeView| t.renamed(renames);
    assert forall|t: TypeView| (#[trigger] rename(t)).nested == t.nested.map_values(rename) by {
        assert(rename(t).nested =~= t.nested.map_values(rename));
    }
    assert(decl.renamed(renames).types =~= decl.types.map_values(rename));
    lemma_mapped_at(decl.types, rename, route);
}

/// Renaming changes no declaration but for identifiers: what it declares gets its new name, and
/// so do its type expressions.
pub proof fn law_renaming_keeps_declarations(decl: DeclView, renames: RenamesView)
    ensures
        decl.renamed(renames).node == decl.node,
        decl.renamed(renames).types.len() == decl.types.len(),
        match decl.kind {
            KindView::Named(ident) => decl.renamed(renames).kind == KindView::Named(
                ident.renamed(renames),
            ),
            _ => decl.renamed(renames).kind == decl.kind,
        },
{
}

/// The item of an import statement that is found by going down into braces: to the member at
/// the first position, then to the member of that, and so on, with the paths on the way.
pub open spec fn item_at(content: ContentView, route: Seq<int>) -> Option<
    (Seq<Seq<Seq<char>>>, ImportItemView),
>
    decreases route.len(),
{
    match content {
        ContentView::Item(item) => if route.len() == 0 {
            Some((Seq::empty(), item))
        } else {
            None
        },
        ContentView::Collection(imports) => if route.len() == 0 || !(0 <= route[0]
            < imports.len()) {
            None
        } else {
            match item_at(imports[route[0]].content, route.drop_first()) {
                Some((paths, item)) => Some((seq![imports[route[0]].path] + paths, item)),
                None => None,
            }
        },
    }
}

/// Renaming reaches every item of an import statement, however deep it stands in braces. The
/// identifier and the name that it is imported as are renamed, the paths are not.
pub proof fn law_renaming_reaches_every_import(
    content: ContentView,
    renames: RenamesView,
    route: Seq<int>,
)
    ensures
        match item_at(content, route) {
            Some((paths, item)) => item_at(content.renamed(renames), route) matches Some(
                (new_paths, res),
            ) && {
                &&& new_paths == paths
                &&& res.ident == item.ident.renamed(renames)
                &&& match item.rename {
                    Some(name) => res.rename == Some(name.renamed(renames)),
                    None => res.rename is None,
                }
            },
            None => item_at(content.renamed(renames), route) is None,
        },
    decreases route.len(),
{
    if let ContentView::Collection(imports) = content {
        if route.len() > 0 && 0 <= route[0] < imports.len() {
            let i = route[0];
            let member: ImportView = imports[i].renamed(renames);
            assert(content.renamed(renames)->Collection_0[i] == member);
            law_renaming_reaches_every_import(
                imports[i].content,
                renames,
                route.drop_first(),
            );
        }
    }
}

/// Whether a table of imports has the same entries as before but for the identifiers, which
/// have their new names.
pub open spec fn imports_renamed(
    before: ImportsView,
    after: ImportsView,
    renames: RenamesView,
) -> bool {
    &&& after.len() == before.len()
    &&& forall|m: int|
        #![trigger after[m]]
        0 <= m < after.len() ==> {
            &&& after[m].0 == before[m].0.renamed(renames)
            &&& after[m].1.ident == before[m].1.ident.renamed(renames)
            &&& after[m].1.path == before[m].1.path
            &&& after[m].1.public == before[m].1.public
        }
}

/// Whether import statements are the same as before but for the identifiers, which have their
/// new names.
pub open spec fn statements_renamed(
    before: Seq<StatementView>,
    after: Seq<StatementView>,
    renames: RenamesView,
) -> bool {
    &&& after.len() == before.len()
    &&& forall|m: int|
        #![trigger after[m]]
        0 <= m < after.len() ==> {
            &&& after[m].attributes == before[m].attributes
            &&& after[m].path == before[m].path
            &&& after[m].content == before[m].content.renamed(renames)
        }
}

/// Renaming concerns all modules and changes nothing in them but identifiers: their order, their
/// paths, their directives and what is used in them stay as they are.
pub proof fn law_renaming_keeps_modules(
    resolutions: ResolutionsView,
    renames: RenamesView,
    i: int,
)
    ensures
        resolutions.renamed(renames).order == resolutions.order,
        resolutions.renamed(renames).modules.len() == resolutions.modules.len(),
        0 <= i < resolutions.modules.len() ==> {
            let before = resolutions.modules[i];
            let after = resolutions.renamed(renames).modules[i];
            let decls = before.code.source.declarations;
            &&& after.used == before.used
            &&& after.code.path == before.code.path
            &&& after.code.source.directives == before.code.source.directives
            &&& after.code.source.declarations.len() == decls.len()
            &&& forall|n: int|
                0 <= n < decls.len() ==> #[trigger] after.code.source.declarations[n]
                    == decls[n].renamed(renames)
            &&& imports_renamed(before.code.imports, after.code.imports, renames)
            &&& statements_renamed(
                before.code.source.imports,
                after.code.source.imports,
                renames,
            )
        },
{
}

} // verus!
