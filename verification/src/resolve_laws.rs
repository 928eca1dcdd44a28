//! What holds of every resolution.
use crate::assemble::all_decls;
use crate::error::ImportErrorView;
use crate::follow_laws::{arrived, forward, lemma_outcome_coherent, reach, sound_answers};
use crate::link_laws::{declares_name, imports_name, lemma_linked_names};
use crate::load::{load_outcome, loaded_module, Exchange, LoadOutcome, LoadView};
use crate::load_laws::{answered_by, is_answer, lemma_in_order, lemma_outcome_ordered};
use crate::module::{decl_index, lemma_decl_index, CodeView, ModuleView};
use crate::output_laws::lemma_all_contains;
use crate::resolutions::{lemma_position, position, ResolutionsView};
use crate::retarget::{
    chase, external_decl, first_retarget_error, lemma_external_decl, lemma_retarget_error_concat,
    used_types, Place,
};
use crate::syntax::{DeclView, IdentView, PathView, TypeView, UnitView};
use crate::table::{by_id, by_name, lemma_by_id, lemma_by_name};
use crate::usage::{post_order, post_orders};
use crate::usage_laws::lemma_mapped_orders;
use vstd::prelude::*;

verus! {

/// Whether the identifier numbered `id` is that of a used declaration of one of the modules.
pub open spec fn used_somewhere(modules: Seq<ModuleView>, id: u64) -> bool {
    exists|j: int|
        0 <= j < modules.len() && (#[trigger] modules[j]).code.declares(id)
            && modules[j].used.contains(id)
}

/// Following imports ends at the declaration that they lead to.
proof fn lemma_reach_chase(modules: Seq<ModuleView>, place: Place, k: nat, decl: IdentView)
    requires
        reach(modules, place, k) is Some,
        ({
            let end = reach(modules, place, k)->0;
            chase(modules, end.path, end.ident, 0) == Some(decl)
        }),
    ensures
        chase(modules, place.path, place.ident, k) == Some(decl),
    decreases k,
{
    if k > 0 {
        lemma_reach_chase(modules, forward(modules, place)->0, (k - 1) as nat, decl);
    }
}

/// Where nothing waits any more, a settled place means a used declaration.
proof fn lemma_settled_decl(loaded: ResolutionsView, place: Place)
    requires
        (LoadView { resolutions: loaded, stack: Seq::empty() }).settled(place),
        forall|i: int|
            0 <= i < loaded.modules.len() ==> (
            #[trigger] loaded.modules[i]).code.source.declarations.len() <= usize::MAX,
    ensures
        external_decl(loaded.modules, place.path, place.ident) matches Some(decl)
            && used_somewhere(loaded.modules, decl.id),
{
    let modules = loaded.modules;
    let load = LoadView { resolutions: loaded, stack: Seq::empty() };
    let k = choose|k: nat| #[trigger]
        reach(modules, place, k) is Some && load.ends(reach(modules, place, k)->0);
    let end = reach(modules, place, k)->0;
    assert(arrived(modules, end));
    let i = position(modules, end.path)->0;
    lemma_position(modules, end.path);
    let code = modules[i].code;
    let decl = (code.find_decl(end.ident)->0).0;
    assert(chase(modules, end.path, end.ident, 0) == Some(decl));
    lemma_reach_chase(modules, place, k, decl);
    lemma_external_decl(modules, place.path, place.ident, k);
    lemma_decl_index(code.source.declarations);
    lemma_by_id(code.idents(), end.ident.id);
    lemma_by_name(code.idents(), end.ident.name);
    lemma_by_id(code.idents(), decl.id);
    assert(modules[i].code.declares(decl.id));
}

/// A type expression of a used declaration can be retargeted. If it is imported from another
/// module it means a used declaration, and if it leads back to its own module, a
/// declaration.
proof fn lemma_type_retargets(
    loaded: ResolutionsView,
    keep: Option<Seq<IdentView>>,
    i: int,
    n: int,
    k: int,
)
    requires
        (LoadView { resolutions: loaded, stack: Seq::empty() }).coherent(keep),
        0 <= i < loaded.modules.len(),
        0 <= n < loaded.modules[i].code.source.declarations.len(),
        loaded.modules[i].code.source.declarations[n].is_used(loaded.modules[i].used),
        0 <= k < post_orders(loaded.modules[i].code.source.declarations[n].types).len(),
    ensures
        ({
            let module = loaded.modules[i];
            let ty = post_orders(module.code.source.declarations[n].types)[k];
            &&& module.code.retarget_ident(loaded.modules, ty) matches Ok(decl)
            &&& decl matches Some(ident) ==> if module.code.refers_to_self(ty) {
                module.code.declares(ident.id)
            } else {
                used_somewhere(loaded.modules, ident.id)
            }
            &&& decl is None ==> ty.path is None && (module.code.declares(ty.ident.id)
                ==> used_somewhere(loaded.modules, ty.ident.id))
        }),
{
    let load = LoadView { resolutions: loaded, stack: Seq::empty() };
    let module = loaded.modules[i];
    let code = module.code;
    let decls = code.source.declarations;
    let ty = post_orders(decls[n].types)[k];
    assert(load.module_resolved(i));
    assert(load.decl_resolved(i, n));
    assert(load.resolved(i, code.reference(ty)));
    assert(code.sound());
    lemma_decl_index(decls);
    lemma_by_id(code.idents(), ty.ident.id);
    assert forall|j: int| 0 <= j < loaded.modules.len() implies (
    #[trigger] loaded.modules[j]).code.source.declarations.len() <= usize::MAX by {
        assert(loaded.modules[j].code.sound());
    }
    match code.target(ty) {
        None => {
            if code.declares(ty.ident.id) {
                let m = (by_id(code.idents(), ty.ident.id)->0).1;
                assert(decls[m as int].declares(ty.ident.id));
                assert(loaded.modules[i].code.declares(ty.ident.id));
            }
        },
        Some((path, ident)) => {
            if path != code.path {
                lemma_settled_decl(loaded, Place { path, ident });
            } else {
                assert(code.declares(ty.ident.id));
                let (key, m) = by_id(code.idents(), ty.ident.id)->0;
                assert(decls[m as int].ident() is Some);
                if ty.path is None {
                    lemma_by_id(code.imports, ty.ident.id);
                    let x = choose|x: int|
                        0 <= x < code.imports.len() && #[trigger] code.imports[x] == by_id(
                            code.imports,
                            ty.ident.id,
                        )->0;
                    assert(decls[m as int].ident()->0.id != code.imports[x].0.id);
                } else {
                    assert(ty.ident.name == decls[m as int].ident()->0.name);
                    lemma_index_name(decls, m as int);
                    lemma_by_name(code.idents(), ty.ident.name);
                    lemma_by_id(code.idents(), (by_name(code.idents(), ty.ident.name)->0).0.id);
                }
            }
        },
    }
}

/// A declared name is in the index, if no two declarations declare the same identifier.
proof fn lemma_index_name(decls: Seq<DeclView>, n: int)
    requires
        0 <= n < decls.len(),
        decls[n].ident() is Some,
        forall|i: int, j: int|
            0 <= i < j < decls.len() && (#[trigger] decls[i]).ident() is Some && (
            #[trigger] decls[j]).ident() is Some ==> decls[i].ident()->0.id
                != decls[j].ident()->0.id,
        decls.len() <= usize::MAX,
    ensures
        exists|x: int|
            0 <= x < decl_index(decls).len() && (#[trigger] decl_index(decls)[x]).0
                == decls[n].ident()->0,
    decreases decls.len(),
{
    let prev = decl_index(decls.drop_last());
    let res = decl_index(decls);
    lemma_decl_index(decls.drop_last());
    if decls.last().ident() is Some {
        let ident = decls.last().ident()->0;
        lemma_by_id(prev, ident.id);
        if by_id(prev, ident.id) is Some {
            let x = choose|x: int|
                0 <= x < prev.len() && #[trigger] prev[x] == by_id(prev, ident.id)->0;
            let m = prev[x].1;
            assert(decls.drop_last()[m as int].declares(ident.id));
            assert(decls[m as int].ident()->0.id != decls[decls.len() - 1].ident()->0.id);
        }
    }
    if n < decls.len() - 1 {
        assert(decls.drop_last()[n] == decls[n]);
        assert forall|i: int, j: int|
            0 <= i < j < decls.drop_last().len() && (
            #[trigger] decls.drop_last()[i]).ident() is Some && (
            #[trigger] decls.drop_last()[j]).ident() is Some implies
            decls.drop_last()[i].ident()->0.id != decls.drop_last()[j].ident()->0.id by {
            assert(decls[i].ident() is Some && decls[j].ident() is Some);
        }
        lemma_index_name(decls.drop_last(), n);
        let x = choose|x: int|
            0 <= x < prev.len() && (#[trigger] prev[x]).0 == decls.drop_last()[n].ident()->0;
        assert(res[x].0 == decls[n].ident()->0);
    } else {
        assert(res[prev.len() as int].0 == decls[n].ident()->0);
    }
}

/// Every used type expression is one of a used declaration.
proof fn lemma_used_types(decls: Seq<DeclView>, used: Set<u64>, k: int)
    requires
        0 <= k < used_types(decls, used).len(),
    ensures
        exists|n: int, j: int|
            0 <= n < decls.len() && decls[n].is_used(used) && 0 <= j < post_orders(
                decls[n].types,
            ).len() && #[trigger] post_orders(decls[n].types)[j] == used_types(decls, used)[k],
    decreases decls.len(),
{
    let prev = used_types(decls.drop_last(), used);
    if k < prev.len() {
        lemma_used_types(decls.drop_last(), used, k);
        let (n, j) = choose|n: int, j: int|
            0 <= n < decls.drop_last().len() && decls.drop_last()[n].is_used(used) && 0 <= j
                < post_orders(decls.drop_last()[n].types).len() && #[trigger] post_orders(
                decls.drop_last()[n].types,
            )[j] == prev[k];
        assert(decls.drop_last()[n] == decls[n]);
        assert(post_orders(decls[n].types)[j] == used_types(decls, used)[k]);
    } else {
        let n = decls.len() - 1;
        assert(post_orders(decls[n].types)[k - prev.len()] == used_types(decls, used)[k]);
    }
}

proof fn lemma_no_error(code: CodeView, modules: Seq<ModuleView>, types: Seq<TypeView>)
    requires
        forall|k: int|
            0 <= k < types.len() ==> code.retarget_ident(modules, #[trigger] types[k]) is Ok,
    ensures
        code.retarget_error(modules, types) is None,
    decreases types.len(),
{
    if types.len() > 0 {
        assert forall|k: int| 0 <= k < types.drop_last().len() implies code.retarget_ident(
            modules,
            #[trigger] types.drop_last()[k],
        ) is Ok by {
            assert(types.drop_last()[k] == types[k]);
        }
        lemma_no_error(code, modules, types.drop_last());
        assert(code.retarget_ident(modules, types[types.len() - 1]) is Ok);
    }
}

proof fn lemma_no_first_error(some: Seq<ModuleView>, modules: Seq<ModuleView>)
    requires
        forall|i: int|
            0 <= i < some.len() ==> (#[trigger] some[i]).retarget_error(modules) is None,
    ensures
        first_retarget_error(some, modules) is None,
    decreases some.len(),
{
    if some.len() > 0 {
        assert forall|i: int| 0 <= i < some.drop_last().len() implies (
        #[trigger] some.drop_last()[i]).retarget_error(modules) is None by {
            assert(some.drop_last()[i] == some[i]);
        }
        lemma_no_first_error(some.drop_last(), modules);
        assert(some[some.len() - 1].retarget_error(modules) is None);
    }
}

/// What is loaded can be retargeted: every used identifier has its declaration, because
/// loading has checked all of them.
pub proof fn law_retargeting_never_fails(
    source: UnitView,
    path: PathView,
    keep: Option<Seq<IdentView>>,
    exchanges: Seq<Exchange>,
    limit: nat,
    loaded: ResolutionsView,
)
    requires
        source.sound(path),
        sound_answers(exchanges),
        load_outcome(source, path, keep, exchanges, limit) == LoadOutcome::Done(loaded),
    ensures
        loaded.retargeted() is Ok,
{
    lemma_outcome_coherent(source, path, keep, exchanges, limit, loaded);
    let modules = loaded.modules;
    assert forall|i: int| 0 <= i < modules.len() implies (#[trigger] modules[i]).retarget_error(
        modules,
    ) is None by {
        let code = modules[i].code;
        let decls = code.source.declarations;
        let types = used_types(decls, modules[i].used);
        assert forall|k: int| 0 <= k < types.len() implies code.retarget_ident(
            modules,
            #[trigger] types[k],
        ) is Ok by {
            lemma_used_types(decls, modules[i].used, k);
            let (n, j) = choose|n: int, j: int|
                0 <= n < decls.len() && decls[n].is_used(modules[i].used) && 0 <= j < post_orders(
                    decls[n].types,
                ).len() && #[trigger] post_orders(decls[n].types)[j] == types[k];
            lemma_type_retargets(loaded, keep, i, n, j);
        }
        lemma_no_error(code, modules, types);
    }
    lemma_no_first_error(modules, modules);
}

impl CodeView {
    /// Whether the identifier numbered `id` is neither declared nor imported: a builtin, or
    /// bound inside a declaration.
    pub open spec fn is_foreign(self, id: u64) -> bool {
        !self.declares(id) && by_id(self.imports, id) is None
    }

    /// Whether a type expression is imported, and leads back to the module itself.
    pub open spec fn refers_to_self(self, ty: TypeView) -> bool {
        self.target(ty) matches Some((path, _)) && path == self.path
    }
}

/// Whether one of the declarations declares the identifier numbered `id`.
pub open spec fn declared_among(decls: Seq<DeclView>, id: u64) -> bool {
    exists|b: int| 0 <= b < decls.len() && (#[trigger] decls[b]).declares(id)
}

/// A used declaration is in the output.
proof fn lemma_used_in_output(loaded: ResolutionsView, strip: bool, id: u64)
    requires
        loaded.retargeted() is Ok,
        used_somewhere(loaded.modules, id),
        forall|i: int|
            0 <= i < loaded.modules.len() ==> (
            #[trigger] loaded.modules[i]).code.source.declarations.len() <= usize::MAX,
    ensures
        declared_among(all_decls(loaded.retargeted()->Ok_0.modules, strip), id),
{
    let modules = loaded.modules;
    let res = loaded.retargeted()->Ok_0.modules;
    let j = choose|j: int|
        0 <= j < modules.len() && (#[trigger] modules[j]).code.declares(id)
            && modules[j].used.contains(id);
    let code = modules[j].code;
    lemma_decl_index(code.source.declarations);
    lemma_by_id(code.idents(), id);
    let m = (by_id(code.idents(), id)->0).1 as int;
    assert(code.source.declarations[m].declares(id));
    let decl = res[j].code.source.declarations[m];
    assert(decl.declares(id));
    lemma_all_contains(res, strip, j, m);
    let output = all_decls(res, strip);
    let b = choose|b: int| 0 <= b < output.len() && output[b] == decl;
    assert(output[b].declares(id));
}

/// In a loaded module, an identifier that is neither declared nor imported is bound inside its
/// declaration, or of a name that is neither declared nor imported.
proof fn lemma_foreign_names(
    source: UnitView,
    path: PathView,
    exchanges: Seq<Exchange>,
    loaded: ResolutionsView,
    i: int,
    n: int,
    k: int,
)
    requires
        source.sound(path),
        sound_answers(exchanges),
        loaded.modules[0].code == loaded_module(source, path).code,
        forall|j: int|
            0 < j < loaded.modules.len() ==> answered_by(exchanges, #[trigger] loaded.modules[j]),
        0 <= i < loaded.modules.len(),
        0 <= n < loaded.modules[i].code.source.declarations.len(),
        0 <= k < post_orders(loaded.modules[i].code.source.declarations[n].types).len(),
    ensures
        ({
            let code = loaded.modules[i].code;
            let ty = post_orders(code.source.declarations[n].types)[k];
            code.is_foreign(ty.ident.id) ==> ty.local || (!declares_name(
                code.source.declarations,
                ty.ident.name,
            ) && !imports_name(code.imports, ty.ident.name))
        }),
{
    let (unit, at): (UnitView, PathView) = if i == 0 {
        (source, path)
    } else {
        assert(answered_by(exchanges, loaded.modules[i]));
        let x = choose|x: int|
            0 <= x < exchanges.len() && is_answer(#[trigger] exchanges[x], loaded.modules[i]);
        (exchanges[x].answer->Ok_0, exchanges[x].path)
    };
    assert(loaded.modules[i].code == loaded_module(unit, at).code);
    assert(unit.sound(at));
    let decls = unit.declarations;
    assert forall|x: int, y: int|
        0 <= x < decls.len() && 0 <= y < decls.len() && (#[trigger] decls[x]).ident() is Some && (
        #[trigger] decls[y]).ident() is Some && decls[x].ident()->0.id
            == decls[y].ident()->0.id implies decls[x].ident()->0.name
        == decls[y].ident()->0.name by {
        if x < y {
            assert(decls[x].ident()->0.id != decls[y].ident()->0.id);
        } else if y < x {
            assert(decls[y].ident()->0.id != decls[x].ident()->0.id);
        }
    }
    lemma_linked_names(unit, at, n, k);
}

/// Lazy resolution is valid when stripping is enabled, and eager resolution always is: the
/// output refers to nothing outside of it. In every declaration that survives, no type
/// expression has a path any more, and each one is the identifier of a declaration in the
/// output, or of something that the module neither declares nor imports: something bound
/// inside the declaration, or of a name that no declaration and no import of the module has.
///
/// In lazy mode, a type expression that leads back to its own module by a path is left out:
/// such a reference makes nothing used, so what it refers to can be stripped.
pub proof fn law_output_is_closed(
    source: UnitView,
    path: PathView,
    keep: Option<Seq<IdentView>>,
    exchanges: Seq<Exchange>,
    limit: nat,
    loaded: ResolutionsView,
    strip: bool,
    i: int,
    n: int,
    k: int,
)
    requires
        strip || keep is None,
        source.sound(path),
        sound_answers(exchanges),
        load_outcome(source, path, keep, exchanges, limit) == LoadOutcome::Done(loaded),
        0 <= i < loaded.modules.len(),
        0 <= n < loaded.modules[i].code.source.declarations.len(),
        !strip || loaded.modules[i].code.source.declarations[n].is_kept(loaded.modules[i].used),
        0 <= k < post_orders(loaded.modules[i].code.source.declarations[n].types).len(),
        keep is None || !loaded.modules[i].code.refers_to_self(
            post_orders(loaded.modules[i].code.source.declarations[n].types)[k],
        ),
    ensures
        ({
            let resolutions = loaded.retargeted()->Ok_0;
            let output = resolutions.assembled(strip).declarations;
            let decl = resolutions.modules[i].code.source.declarations[n];
            let ty = post_orders(decl.types)[k];
            &&& output.contains(decl)
            &&& ty.path is None
            &&& declared_among(output, ty.ident.id) || (loaded.modules[i].code.is_foreign(
                ty.ident.id,
            ) && (ty.local || (!declares_name(
                loaded.modules[i].code.source.declarations,
                ty.ident.name,
            ) && !imports_name(loaded.modules[i].code.imports, ty.ident.name))))
        }),
{
    law_retargeting_never_fails(source, path, keep, exchanges, limit, loaded);
    lemma_outcome_coherent(source, path, keep, exchanges, limit, loaded);
    let modules = loaded.modules;
    let res = loaded.retargeted()->Ok_0;
    assert forall|x: int, y: int| 0 <= x < y < res.modules.len() implies
        #[trigger] res.modules[x].code.path != #[trigger] res.modules[y].code.path by {
        assert(modules[x].code.path != modules[y].code.path);
    }
    assert forall|x: int| 0 <= x < res.modules.len() implies (
    #[trigger] res.modules[x]).code.path == res.order[x] by {
        assert(modules[x].code.path == loaded.order[x]);
    }
    lemma_in_order(res);
    let code = modules[i].code;
    let old_decl = code.source.declarations[n];
    let decl = res.modules[i].code.source.declarations[n];
    assert(decl == old_decl.retargeted(code, modules[i].used, modules));
    lemma_all_contains(res.modules, strip, i, n);
    assert(old_decl.is_used(modules[i].used)) by {
        if !strip {
            assert(modules[i].all_used());
        }
    }
    let retarget = |t: TypeView| t.retargeted(code, modules);
    assert forall|t: TypeView| (#[trigger] retarget(t)).nested == t.nested.map_values(retarget) by {
        assert(retarget(t).nested =~= t.nested.map_values(retarget));
    }
    lemma_mapped_orders(old_decl.types, retarget);
    assert(decl.types =~= old_decl.types.map_values(retarget));
    let ty = post_orders(decl.types)[k];
    assert(ty == post_orders(old_decl.types)[k].retargeted(code, modules));
    lemma_type_retargets(loaded, keep, i, n, k);
    assert forall|j: int| 0 <= j < modules.len() implies (
    #[trigger] modules[j]).code.source.declarations.len() <= usize::MAX by {
        assert(modules[j].code.sound());
    }
    if keep is None && code.declares(ty.ident.id) {
        lemma_decl_index(code.source.declarations);
        lemma_by_id(code.idents(), ty.ident.id);
        let m = (by_id(code.idents(), ty.ident.id)->0).1 as int;
        assert(modules[i].all_used());
        assert(code.source.declarations[m].is_used(modules[i].used));
        assert(modules[i].code.declares(ty.ident.id));
    }
    if used_somewhere(modules, ty.ident.id) {
        lemma_used_in_output(loaded, strip, ty.ident.id);
    } else {
        lemma_outcome_ordered(source, path, keep, exchanges, limit, loaded);
        lemma_foreign_names(source, path, exchanges, loaded, i, n, k);
    }
}

/// Whether no identifier is imported by one of the modules and declared by one of them.
pub open spec fn imports_undeclared(modules: Seq<ModuleView>) -> bool {
    forall|i: int, j: int, m: int|
        0 <= i < modules.len() && 0 <= j < modules.len() && 0 <= m
            < modules[j].code.imports.len() ==> !(#[trigger] modules[i]).code.declares(
            (#[trigger] modules[j].code.imports[m]).0.id,
        )
}

/// What an identifier means in another module is declared by one of the modules.
proof fn lemma_chase_declares(
    modules: Seq<ModuleView>,
    path: PathView,
    ident: IdentView,
    hops: nat,
)
    requires
        chase(modules, path, ident, hops) is Some,
    ensures
        exists|i: int|
            0 <= i < modules.len() && (#[trigger] modules[i]).code.declares(
                chase(modules, path, ident, hops)->0.id,
            ),
    decreases hops,
{
    let i = position(modules, path)->0;
    let code = modules[i].code;
    lemma_position(modules, path);
    if code.find_decl(ident) is Some {
        let decl = (code.find_decl(ident)->0).0;
        lemma_by_id(code.idents(), ident.id);
        lemma_by_name(code.idents(), ident.name);
        lemma_by_id(code.idents(), decl.id);
        assert(modules[i].code.declares(decl.id));
    } else {
        let item = (code.find_import(ident)->0).1;
        lemma_chase_declares(modules, item.path, item.ident, (hops - 1) as nat);
    }
}

/// What a type expression is retargeted to is declared by one of the modules.
proof fn lemma_retarget_declares(modules: Seq<ModuleView>, i: int, ty: TypeView)
    requires
        0 <= i < modules.len(),
        modules[i].code.retarget_ident(modules, ty) matches Ok(Some(_)),
    ensures
        exists|j: int|
            0 <= j < modules.len() && (#[trigger] modules[j]).code.declares(
                (modules[i].code.retarget_ident(modules, ty)->Ok_0)->0.id,
            ),
{
    let code = modules[i].code;
    let (path, ident) = code.target(ty)->0;
    if path == code.path {
        let decl = (by_name(code.idents(), ident.name)->0).0;
        lemma_by_name(code.idents(), ident.name);
        lemma_by_id(code.idents(), decl.id);
        assert(modules[i].code.declares(decl.id));
    } else {
        let hops = choose|hops: nat| #[trigger] chase(modules, path, ident, hops) is Some;
        lemma_chase_declares(modules, path, ident, hops);
    }
}

/// The type expressions in one of a list are among those in the list.
proof fn lemma_orders_contain(types: Seq<TypeView>, i: int, k: int)
    requires
        0 <= i < types.len(),
        0 <= k < post_order(types[i]).len(),
    ensures
        exists|l: int|
            0 <= l < post_orders(types).len() && #[trigger] post_orders(types)[l] == post_order(
                types[i],
            )[k],
    decreases types.len(),
{
    let prev = post_orders(types.drop_last());
    let last = post_order(types.last());
    let x = post_order(types[i])[k];
    assert(post_orders(types) == prev + last);
    if i < types.len() - 1 {
        assert(types.drop_last()[i] == types[i]);
        lemma_orders_contain(types.drop_last(), i, k);
        let l = choose|l: int| 0 <= l < prev.len() && #[trigger] prev[l] == x;
        assert(post_orders(types)[l] == x);
    } else {
        assert(post_orders(types)[prev.len() + k] == x);
    }
}

/// A type expression stays as it is if nothing in it is imported.
proof fn lemma_unchanged(code: CodeView, modules: Seq<ModuleView>, ty: TypeView)
    requires
        forall|k: int|
            0 <= k < post_order(ty).len() ==> code.target(#[trigger] post_order(ty)[k]) is None,
    ensures
        ty.retargeted(code, modules) == ty,
    decreases ty,
{
    let inner = post_orders(ty.nested);
    let all = post_order(ty);
    assert(all == inner.push(ty));
    assert(code.target(all[inner.len() as int]) is None);
    assert forall|i: int| 0 <= i < ty.nested.len() implies (#[trigger] ty.nested[i]).retargeted(
        code,
        modules,
    ) == ty.nested[i] by {
        let child = ty.nested[i];
        assert forall|k: int| 0 <= k < post_order(child).len() implies code.target(
            #[trigger] post_order(child)[k],
        ) is None by {
            lemma_orders_contain(ty.nested, i, k);
            let l = choose|l: int|
                0 <= l < inner.len() && #[trigger] inner[l] == post_order(child)[k];
            assert(all[l] == inner[l]);
        }
        lemma_unchanged(code, modules, child);
    }
    assert(ty.retargeted(code, modules).nested =~= ty.nested);
}

/// Type expressions without an error can all be retargeted.
proof fn lemma_each_retargets(code: CodeView, modules: Seq<ModuleView>, types: Seq<TypeView>)
    requires
        code.retarget_error(modules, types) is None,
    ensures
        forall|k: int|
            0 <= k < types.len() ==> code.retarget_ident(modules, #[trigger] types[k]) is Ok,
    decreases types.len(),
{
    if types.len() > 0 {
        lemma_each_retargets(code, modules, types.drop_last());
        assert forall|k: int| 0 <= k < types.len() implies code.retarget_ident(
            modules,
            #[trigger] types[k],
        ) is Ok by {
            if k < types.len() - 1 {
                assert(types.drop_last()[k] == types[k]);
            }
        }
    }
}

/// The type expressions of a used declaration have no error if those of the module have none.
proof fn lemma_decl_retargets(
    code: CodeView,
    modules: Seq<ModuleView>,
    decls: Seq<DeclView>,
    used: Set<u64>,
    n: int,
)
    requires
        code.retarget_error(modules, used_types(decls, used)) is None,
        0 <= n < decls.len(),
        decls[n].is_used(used),
    ensures
        code.retarget_error(modules, post_orders(decls[n].types)) is None,
    decreases decls.len(),
{
    let prev = used_types(decls.drop_last(), used);
    let last = if decls.last().is_used(used) {
        post_orders(decls.last().types)
    } else {
        Seq::empty()
    };
    lemma_retarget_error_concat(code, modules, prev, last);
    if n < decls.len() - 1 {
        assert(decls.drop_last()[n] == decls[n]);
        lemma_decl_retargets(code, modules, decls.drop_last(), used, n);
    }
}

/// Modules without an error are all without one.
proof fn lemma_each_module_retargets(some: Seq<ModuleView>, modules: Seq<ModuleView>)
    requires
        first_retarget_error(some, modules) is None,
    ensures
        forall|i: int|
            0 <= i < some.len() ==> (#[trigger] some[i]).retarget_error(modules) is None,
    decreases some.len(),
{
    if some.len() > 0 {
        lemma_each_module_retargets(some.drop_last(), modules);
        assert forall|i: int| 0 <= i < some.len() implies (#[trigger] some[i]).retarget_error(
            modules,
        ) is None by {
            if i < some.len() - 1 {
                assert(some.drop_last()[i] == some[i]);
            }
        }
    }
}

/// In a used declaration that is retargeted, nothing is imported any more.
proof fn lemma_nothing_imported(resolutions: ResolutionsView, i: int, n: int)
    requires
        imports_undeclared(resolutions.modules),
        resolutions.retargeted() is Ok,
        0 <= i < resolutions.modules.len(),
        0 <= n < resolutions.modules[i].code.source.declarations.len(),
        resolutions.modules[i].code.source.declarations[n].is_used(resolutions.modules[i].used),
    ensures
        ({
            let code = resolutions.retargeted()->Ok_0.modules[i].code;
            let types = post_orders(code.source.declarations[n].types);
            forall|k: int| 0 <= k < types.len() ==> code.target(#[trigger] types[k]) is None
        }),
{
    let modules = resolutions.modules;
    let code = modules[i].code;
    let decl = code.source.declarations[n];
    let res = resolutions.retargeted()->Ok_0.modules[i].code;
    let types = post_orders(res.source.declarations[n].types);
    lemma_each_module_retargets(modules, modules);
    assert(modules[i].retarget_error(modules) is None);
    lemma_decl_retargets(code, modules, code.source.declarations, modules[i].used, n);
    lemma_each_retargets(code, modules, post_orders(decl.types));
    let retarget = |t: TypeView| t.retargeted(code, modules);
    assert forall|t: TypeView| (#[trigger] retarget(t)).nested == t.nested.map_values(retarget) by {
        assert(retarget(t).nested =~= t.nested.map_values(retarget));
    }
    lemma_mapped_orders(decl.types, retarget);
    assert(res.source.declarations[n].types =~= decl.types.map_values(retarget));
    assert forall|k: int| 0 <= k < types.len() implies res.target(#[trigger] types[k]) is None by {
        let ty = post_orders(decl.types)[k];
        assert(types[k] == ty.retargeted(code, modules));
        assert(code.retarget_ident(modules, ty) is Ok);
        if code.retarget_ident(modules, ty)->Ok_0 is Some {
            let id = (code.retarget_ident(modules, ty)->Ok_0)->0.id;
            lemma_retarget_declares(modules, i, ty);
            let j = choose|j: int|
                0 <= j < modules.len() && (#[trigger] modules[j]).code.declares(id);
            lemma_by_id(code.imports, id);
            if by_id(code.imports, id) is Some {
                let m = choose|m: int|
                    0 <= m < code.imports.len() && #[trigger] code.imports[m] == by_id(
                        code.imports,
                        id,
                    )->0;
                assert(!modules[j].code.declares(modules[i].code.imports[m].0.id));
            }
        }
    }
}

/// Retargeting is done once: a second time succeeds and changes nothing. This is for modules
/// that declare no identifier which one of them imports; such an identifier would still be
/// imported after the first time.
pub proof fn law_retargeting_is_idempotent(resolutions: ResolutionsView)
    requires
        imports_undeclared(resolutions.modules),
        resolutions.retargeted() is Ok,
    ensures
        resolutions.retargeted()->Ok_0.retargeted() == Ok::<ResolutionsView, ImportErrorView>(
            resolutions.retargeted()->Ok_0,
        ),
{
    let res = resolutions.retargeted()->Ok_0;
    let modules = res.modules;
    assert forall|i: int| 0 <= i < modules.len() implies (#[trigger] modules[i]).retarget_error(
        modules,
    ) is None && modules[i].retargeted(modules) == modules[i] by {
        let code = modules[i].code;
        let used = modules[i].used;
        let decls = code.source.declarations;
        let types = used_types(decls, used);
        assert forall|k: int| 0 <= k < types.len() implies code.retarget_ident(
            modules,
            #[trigger] types[k],
        ) is Ok by {
            lemma_used_types(decls, used, k);
            let (n, j) = choose|n: int, j: int|
                0 <= n < decls.len() && decls[n].is_used(used) && 0 <= j < post_orders(
                    decls[n].types,
                ).len() && #[trigger] post_orders(decls[n].types)[j] == types[k];
            lemma_nothing_imported(resolutions, i, n);
        }
        lemma_no_error(code, modules, types);
        assert forall|n: int| 0 <= n < decls.len() implies (#[trigger] decls[n]).retargeted(
            code,
            used,
            modules,
        ) == decls[n] by {
            if decls[n].is_used(used) {
                lemma_nothing_imported(resolutions, i, n);
                assert forall|x: int| 0 <= x < decls[n].types.len() implies (
                #[trigger] decls[n].types[x]).retargeted(code, modules) == decls[n].types[x] by {
                    let ty = decls[n].types[x];
                    assert forall|k: int| 0 <= k < post_order(ty).len() implies code.target(
                        #[trigger] post_order(ty)[k],
                    ) is None by {
                        lemma_orders_contain(decls[n].types, x, k);
                        let l = choose|l: int|
                            0 <= l < post_orders(decls[n].types).len() && #[trigger] post_orders(
                                decls[n].types,
                            )[l] == post_order(ty)[k];
                    }
                    lemma_unchanged(code, modules, ty);
                }
                assert(decls[n].retargeted(code, used, modules).types =~= decls[n].types);
            }
        }
        assert(modules[i].retargeted(modules).code.source.declarations =~= decls);
    }
    lemma_no_first_error(modules, modules);
    assert(res.retargeted()->Ok_0.modules =~= modules);
}

} // verus!
