//! What holds of every reference that a loading follows.
use crate::imports::{import_table, ImportsView};
use crate::link::linked_decls;
use crate::load::{
    lemma_with_used, load_outcome, load_root, loaded_module, root_entrypoints, run, Exchange,
    LoadOutcome, LoadView,
};
use crate::load_laws::{
    fitting_answers, lemma_analyzed_ordered, lemma_entrypoints, lemma_grown,
    lemma_outcome_attentive, lemma_root_load, root_load,
};
use crate::module::{decl_index, lemma_decl_index, CodeView, ModuleView};
use crate::resolutions::{
    lemma_position, lemma_position_paths, lemma_push, position, ResolutionsView,
};
use crate::retarget::Place;
use crate::syntax::{DeclView, IdentView, PathView, TypeView, UnitView};
use crate::table::{by_id, by_name, lemma_by_id, lemma_by_name};
use crate::usage::{analyze, entrypoints, post_orders, EntryView, ExtView, Step};
use crate::usage_laws::{lemma_analyze, lemma_mapped_orders};
use vstd::prelude::*;

verus! {

/// Whether identifiers are used as their identity demands: no two declarations declare the
/// same identifier, a declared identifier is not imported as well, a type expression that
/// is the identifier of a declaration has its name, and a void declaration mentions nothing.
pub open spec fn sound(decls: Seq<DeclView>, imports: ImportsView) -> bool {
    &&& decls.len() <= usize::MAX
    &&& forall|i: int, j: int|
        0 <= i < j < decls.len() && (#[trigger] decls[i]).ident() is Some && (
        #[trigger] decls[j]).ident() is Some ==> decls[i].ident()->0.id != decls[j].ident()->0.id
    &&& forall|i: int, m: int|
        0 <= i < decls.len() && 0 <= m < imports.len() && (#[trigger] decls[i]).ident() is Some
            ==> decls[i].ident()->0.id != (#[trigger] imports[m]).0.id
    &&& forall|i: int, j: int, k: int|
        0 <= i < decls.len() && 0 <= j < decls.len() && 0 <= k < post_orders(decls[j].types).len()
            && (#[trigger] decls[i]).ident() is Some && (
        #[trigger] post_orders(decls[j].types)[k]).ident.id == decls[i].ident()->0.id
            ==> post_orders(decls[j].types)[k].ident.name == decls[i].ident()->0.name
    &&& forall|i: int|
        0 <= i < decls.len() && (#[trigger] decls[i]).kind is Void ==> decls[i].types.len() == 0
}

impl UnitView {
    /// Whether identifiers are used as their identity demands in a module at `path`.
    pub open spec fn sound(self, path: PathView) -> bool {
        sound(self.declarations, import_table(self.imports, path))
    }
}

impl CodeView {
    /// Whether identifiers are used as their identity demands.
    pub open spec fn sound(self) -> bool {
        sound(self.source.declarations, self.imports)
    }
}

/// A key of the index is called what one of the declarations is called.
pub proof fn lemma_index_key(decls: Seq<DeclView>, i: int)
    requires
        0 <= i < decl_index(decls).len(),
    ensures
        exists|n: int|
            0 <= n < decls.len() && (#[trigger] decls[n]).ident() == Some(decl_index(decls)[i].0),
    decreases decls.len(),
{
    if decls.len() > 0 {
        let prev = decl_index(decls.drop_last());
        let key = decl_index(decls)[i].0;
        if i < prev.len() {
            lemma_index_key(decls.drop_last(), i);
            let n = choose|n: int|
                0 <= n < decls.drop_last().len() && (#[trigger] decls.drop_last()[n]).ident()
                    == Some(prev[i].0);
            assert(decls[n].ident() == Some(key));
        } else {
            assert(decls[decls.len() - 1].ident() == Some(key));
        }
    }
}

/// Linking keeps identifiers used as their identity demands.
pub proof fn lemma_loaded_sound(source: UnitView, path: PathView)
    requires
        source.sound(path),
    ensures
        loaded_module(source, path).code.sound(),
{
    let decls = source.declarations;
    let imports = import_table(source.imports, path);
    let idents = decl_index(decls);
    let res = linked_decls(decls, imports);
    assert forall|i: int| 0 <= i < res.len() implies (#[trigger] res[i]).ident()
        == decls[i].ident() by {}
    assert forall|i: int, j: int|
        0 <= i < j < res.len() && (#[trigger] res[i]).ident() is Some && (
        #[trigger] res[j]).ident() is Some implies res[i].ident()->0.id
        != res[j].ident()->0.id by {
        assert(decls[i].ident() is Some && decls[j].ident() is Some);
    }
    assert forall|i: int, m: int|
        0 <= i < res.len() && 0 <= m < imports.len() && (
        #[trigger] res[i]).ident() is Some implies res[i].ident()->0.id != (
    #[trigger] imports[m]).0.id by {
        assert(decls[i].ident() is Some);
    }
    assert forall|i: int, j: int, k: int|
        0 <= i < res.len() && 0 <= j < res.len() && 0 <= k < post_orders(res[j].types).len() && (
        #[trigger] res[i]).ident() is Some && (#[trigger] post_orders(
            res[j].types,
        )[k]).ident.id == res[i].ident()->0.id implies post_orders(res[j].types)[k].ident.name
        == res[i].ident()->0.name by {
        let link = |t: TypeView| t.linked(idents, imports);
        assert forall|t: TypeView| (#[trigger] link(t)).nested == t.nested.map_values(link) by {
            assert(link(t).nested =~= t.nested.map_values(link));
        }
        lemma_mapped_orders(decls[j].types, link);
        assert(res[j].types =~= decls[j].types.map_values(link));
        let ty = post_orders(decls[j].types)[k];
        assert(post_orders(res[j].types)[k] == ty.linked(idents, imports));
        let name = ty.ident.name;
        assert(decls[i].ident() is Some);
        lemma_by_name(idents, name);
        lemma_by_name(imports, name);
        if !ty.local && by_name(idents, name) is Some {
            let x = choose|x: int|
                0 <= x < idents.len() && #[trigger] idents[x] == by_name(idents, name)->0;
            lemma_index_key(decls, x);
            let n = choose|n: int|
                0 <= n < decls.len() && (#[trigger] decls[n]).ident() == Some(idents[x].0);
            if n < i {
                assert(decls[n].ident()->0.id != decls[i].ident()->0.id);
            } else if i < n {
                assert(decls[i].ident()->0.id != decls[n].ident()->0.id);
            }
        } else if !ty.local && by_name(imports, name) is Some {
            let m = choose|m: int|
                0 <= m < imports.len() && #[trigger] imports[m] == by_name(imports, name)->0;
            assert(decls[i].ident()->0.id != imports[m].0.id);
        }
    }
    assert forall|i: int| 0 <= i < res.len() && (#[trigger] res[i]).kind is Void implies
        res[i].types.len() == 0 by {
        assert(decls[i].kind is Void);
    }
}

/// The name in another module that a module answers with when it is asked for a name that it
/// does not declare.
pub open spec fn forward(modules: Seq<ModuleView>, place: Place) -> Option<Place> {
    match position(modules, place.path) {
        None => None,
        Some(i) => match modules[i].code.request(place.ident) {
            Step::Refer(item) => Some(Place { path: item.path, ident: item.ident }),
            _ => None,
        },
    }
}

/// The place that is `k` public imports away from a place.
pub open spec fn reach(modules: Seq<ModuleView>, place: Place, k: nat) -> Option<Place>
    decreases k,
{
    if k == 0 {
        Some(place)
    } else {
        match forward(modules, place) {
            Some(next) => reach(modules, next, (k - 1) as nat),
            None => None,
        }
    }
}

/// Whether a place is that of a used declaration.
pub open spec fn arrived(modules: Seq<ModuleView>, place: Place) -> bool {
    &&& position(modules, place.path) matches Some(i)
    &&& modules[i].code.find_decl(place.ident) matches Some((decl, _))
    &&& modules[i].used.contains(decl.id)
}

/// Whether a place is among the items that are still to be resolved.
pub open spec fn waiting(stack: Seq<ExtView>, place: Place) -> bool {
    exists|j: int|
        0 <= j < stack.len() && (#[trigger] stack[j]).path == place.path && stack[j].ident
            == place.ident
}

impl LoadView {
    /// Whether the imports that start at a place lead to a used declaration, as far as they
    /// are followed.
    pub open spec fn settled(self, place: Place) -> bool {
        exists|k: nat| #[trigger]
            reach(self.resolutions.modules, place, k) is Some && self.ends(
                reach(self.resolutions.modules, place, k)->0,
            )
    }

    /// Whether a place is that of a used declaration, or still to be resolved.
    pub open spec fn ends(self, place: Place) -> bool {
        arrived(self.resolutions.modules, place) || waiting(self.stack, place)
    }

    /// Whether a step of the module at position `i` leads to a used declaration, as far as
    /// it is followed.
    pub open spec fn resolved(self, i: int, step: Step) -> bool {
        let module = self.resolutions.modules[i];
        match step {
            Step::Refer(item) => self.settled(Place { path: item.path, ident: item.ident }),
            _ => module.code.taken(module.used, Seq::empty(), step),
        }
    }

    /// Whether every reference in the declaration at position `n` of the module at position
    /// `i` leads to a used declaration, as far as it is followed.
    pub open spec fn decl_resolved(self, i: int, n: int) -> bool {
        let code = self.resolutions.modules[i].code;
        let types = post_orders(code.source.declarations[n].types);
        forall|k: int|
            0 <= k < types.len() ==> self.resolved(i, code.reference(#[trigger] types[k]))
    }

    /// Whether every reference of the used declarations of the module at position `i` leads
    /// to a used declaration, as far as it is followed.
    pub open spec fn module_resolved(self, i: int) -> bool {
        let module = self.resolutions.modules[i];
        forall|n: int|
            0 <= n < module.code.source.declarations.len() && (
            #[trigger] module.code.source.declarations[n]).is_used(module.used)
                ==> self.decl_resolved(i, n)
    }
}

/// Equal code leads to the same places.
proof fn lemma_forward_code(a: Seq<ModuleView>, b: Seq<ModuleView>, place: Place)
    requires
        a.len() == b.len(),
        forall|i: int| 0 <= i < a.len() ==> (#[trigger] a[i]).code == b[i].code,
    ensures
        position(a, place.path) == position(b, place.path),
        forward(a, place) == forward(b, place),
{
    lemma_position_paths(a, b, place.path);
    lemma_position(a, place.path);
}

proof fn lemma_reach_code(a: Seq<ModuleView>, b: Seq<ModuleView>, place: Place, k: nat)
    requires
        a.len() == b.len(),
        forall|i: int| 0 <= i < a.len() ==> (#[trigger] a[i]).code == b[i].code,
    ensures
        reach(a, place, k) == reach(b, place, k),
    decreases k,
{
    if k > 0 {
        lemma_forward_code(a, b, place);
        if forward(a, place) is Some {
            lemma_reach_code(a, b, forward(a, place)->0, (k - 1) as nat);
        }
    }
}

/// One more import leads one place further.
proof fn lemma_reach_next(modules: Seq<ModuleView>, place: Place, k: nat)
    requires
        reach(modules, place, k) is Some,
    ensures
        reach(modules, place, k + 1) == forward(modules, reach(modules, place, k)->0),
    decreases k,
{
    if k == 0 {
        if forward(modules, place) is Some {
            assert(reach(modules, forward(modules, place)->0, 0) == forward(modules, place));
        }
    } else {
        lemma_reach_next(modules, forward(modules, place)->0, (k - 1) as nat);
    }
}

/// What was settled is settled after another module is loaded.
proof fn lemma_settled_push(load: LoadView, module: ModuleView, place: Place)
    requires
        load.resolutions.valid(),
        position(load.resolutions.modules, module.code.path) is None,
        load.settled(place),
    ensures
        (LoadView {
            resolutions: load.resolutions.push(module),
            stack: load.stack,
        }).settled(place),
{
    let k = choose|k: nat| #[trigger]
        reach(load.resolutions.modules, place, k) is Some && load.ends(
            reach(load.resolutions.modules, place, k)->0,
        );
    let after = LoadView { resolutions: load.resolutions.push(module), stack: load.stack };
    lemma_push(load.resolutions, module);
    lemma_reach_push(load.resolutions, module, place, k);
    let end = reach(load.resolutions.modules, place, k)->0;
    lemma_position(load.resolutions.modules, end.path);
    assert(after.ends(end));
    assert(reach(after.resolutions.modules, place, k) is Some);
}

proof fn lemma_reach_push(resolutions: ResolutionsView, module: ModuleView, place: Place, k: nat)
    requires
        resolutions.valid(),
        position(resolutions.modules, module.code.path) is None,
        reach(resolutions.modules, place, k) is Some,
    ensures
        reach(resolutions.push(module).modules, place, k) == reach(resolutions.modules, place, k),
    decreases k,
{
    if k > 0 {
        lemma_push(resolutions, module);
        lemma_position(resolutions.modules, place.path);
        let next = forward(resolutions.modules, place)->0;
        assert(forward(resolutions.push(module).modules, place) == Some(next));
        lemma_reach_push(resolutions, module, next, (k - 1) as nat);
    }
}

/// A request that has been followed leads to a used declaration or to an item that comes
/// next.
proof fn lemma_request_followed(load: LoadView, i: int, ident: IdentView, items: Seq<ExtView>)
    requires
        load.resolutions.valid(),
        0 <= i < load.resolutions.modules.len(),
        load.resolutions.modules[i].code.source.declarations.len() <= usize::MAX,
        load.resolutions.modules[i].code.taken(
            load.resolutions.modules[i].used,
            items,
            load.resolutions.modules[i].code.request(ident),
        ),
    ensures
        ({
            let modules = load.resolutions.modules;
            let place = Place { path: modules[i].code.path, ident };
            ||| arrived(modules, place)
            ||| modules[i].code.request(ident) matches Step::Refer(item) && items.contains(item)
                && forward(modules, place) == Some(Place { path: item.path, ident: item.ident })
        }),
{
    let modules = load.resolutions.modules;
    let code = modules[i].code;
    lemma_position(modules, code.path);
    let j = position(modules, code.path)->0;
    if j < i {
        assert(modules[j].code.path != modules[i].code.path);
    } else if i < j {
        assert(modules[i].code.path != modules[j].code.path);
    }
    lemma_decl_index(code.source.declarations);
    lemma_by_id(code.idents(), ident.id);
    lemma_by_name(code.idents(), ident.name);
}

/// What was settled is settled after a module is analyzed, if the items that are no longer
/// waiting were asked for there.
proof fn lemma_settled_analyzed(
    load: LoadView,
    done: Seq<ExtView>,
    i: int,
    entries: Seq<EntryView>,
    place: Place,
)
    requires
        load.resolutions.valid(),
        0 <= i < load.resolutions.modules.len(),
        load.resolutions.modules[i].code.source.declarations.len() <= usize::MAX,
        load.analyzed(i, entries) is Ok,
        forall|x: int|
            0 <= x < done.len() ==> (#[trigger] done[x]).path
                == load.resolutions.modules[i].code.path && entries.contains(
                EntryView::Ident(done[x].ident),
            ),
        (LoadView { resolutions: load.resolutions, stack: load.stack + done }).settled(place),
    ensures
        load.analyzed(i, entries)->Ok_0.settled(place),
{
    let full = LoadView { resolutions: load.resolutions, stack: load.stack + done };
    let after = load.analyzed(i, entries)->Ok_0;
    let modules = load.resolutions.modules;
    let module = modules[i];
    let analysis = analyze(module.code, module.used, Seq::empty(), entries);
    let items = analysis.outcome->Ok_0;
    lemma_analyze(module.code, module.used, Seq::empty(), entries);
    let k = choose|k: nat| #[trigger]
        reach(full.resolutions.modules, place, k) is Some && full.ends(
            reach(full.resolutions.modules, place, k)->0,
        );
    let end = reach(modules, place, k)->0;
    lemma_reach_code(modules, after.resolutions.modules, place, k);
    lemma_forward_code(modules, after.resolutions.modules, end);
    lemma_position(modules, end.path);
    if arrived(modules, end) {
        assert(arrived(after.resolutions.modules, end));
        assert(after.ends(end));
    } else {
        let j = choose|j: int|
            0 <= j < full.stack.len() && (#[trigger] full.stack[j]).path == end.path
                && full.stack[j].ident == end.ident;
        if j < load.stack.len() {
            assert(after.stack[j] == full.stack[j]);
            assert(after.ends(end));
        } else {
            let x = done[j - load.stack.len()];
            assert(x == full.stack[j]);
            assert(entries.contains(EntryView::Ident(x.ident)));
            let e = choose|e: int|
                0 <= e < entries.len() && entries[e] == EntryView::Ident(x.ident);
            assert(module.code.entry_followed(analysis.used, items, entries[e]));
            lemma_with_used(load.resolutions, i, analysis.used);
            lemma_request_followed(after, i, x.ident, items);
            if arrived(after.resolutions.modules, end) {
                assert(after.ends(end));
            } else {
                let item = module.code.request(x.ident)->Refer_0;
                let next = Place { path: item.path, ident: item.ident };
                lemma_reach_next(after.resolutions.modules, place, k);
                assert(reach(after.resolutions.modules, place, k + 1) == Some(next));
                lemma_waiting(load.stack, items, item);
                assert(after.ends(next));
            }
        }
    }
}

/// The items that a module refers to wait to be resolved.
proof fn lemma_waiting(stack: Seq<ExtView>, items: Seq<ExtView>, item: ExtView)
    requires
        items.contains(item),
    ensures
        waiting(stack + items.reverse(), Place { path: item.path, ident: item.ident }),
{
    let j = choose|j: int| 0 <= j < items.len() && items[j] == item;
    let after = stack + items.reverse();
    assert(after[stack.len() + items.len() - 1 - j] == item);
}

/// A step that has been taken leads to a used declaration or to an item that comes next.
proof fn lemma_taken(
    load: LoadView,
    i: int,
    entries: Seq<EntryView>,
    step: Step,
)
    requires
        load.analyzed(i, entries) is Ok,
        0 <= i < load.resolutions.modules.len(),
        ({
            let module = load.resolutions.modules[i];
            let analysis = analyze(module.code, module.used, Seq::empty(), entries);
            module.code.taken(analysis.used, analysis.outcome->Ok_0, step)
        }),
    ensures
        load.analyzed(i, entries)->Ok_0.resolved(i, step),
{
    let module = load.resolutions.modules[i];
    let items = analyze(module.code, module.used, Seq::empty(), entries).outcome->Ok_0;
    let after = load.analyzed(i, entries)->Ok_0;
    if step is Refer {
        let item = step->Refer_0;
        let place = Place { path: item.path, ident: item.ident };
        lemma_waiting(load.stack, items, item);
        assert(after.ends(place));
        assert(reach(after.resolutions.modules, place, 0) == Some(place));
    }
}

/// The references of a module that is not the one analyzed stay resolved.
proof fn lemma_other_module(
    load: LoadView,
    done: Seq<ExtView>,
    i: int,
    entries: Seq<EntryView>,
    j: int,
)
    requires
        load.resolutions.valid(),
        0 <= i < load.resolutions.modules.len(),
        0 <= j < load.resolutions.modules.len(),
        i != j,
        load.resolutions.modules[i].code.source.declarations.len() <= usize::MAX,
        load.analyzed(i, entries) is Ok,
        forall|x: int|
            0 <= x < done.len() ==> (#[trigger] done[x]).path
                == load.resolutions.modules[i].code.path && entries.contains(
                EntryView::Ident(done[x].ident),
            ),
        (LoadView { resolutions: load.resolutions, stack: load.stack + done }).module_resolved(j),
    ensures
        load.analyzed(i, entries)->Ok_0.module_resolved(j),
{
    let full = LoadView { resolutions: load.resolutions, stack: load.stack + done };
    let after = load.analyzed(i, entries)->Ok_0;
    let module = load.resolutions.modules[j];
    let decls = module.code.source.declarations;
    assert(after.resolutions.modules[j] == module);
    assert forall|n: int|
        0 <= n < decls.len() && (#[trigger] decls[n]).is_used(module.used) implies
        after.decl_resolved(j, n) by {
        assert(full.decl_resolved(j, n));
        let types = post_orders(decls[n].types);
        assert forall|k: int| 0 <= k < types.len() implies after.resolved(
            j,
            module.code.reference(#[trigger] types[k]),
        ) by {
            let step = module.code.reference(types[k]);
            assert(full.resolved(j, step));
            if step is Refer {
                let item = step->Refer_0;
                lemma_settled_analyzed(
                    load,
                    done,
                    i,
                    entries,
                    Place { path: item.path, ident: item.ident },
                );
            }
        }
    }
}

/// The references of the module analyzed are resolved.
proof fn lemma_analyzed_module(
    load: LoadView,
    done: Seq<ExtView>,
    i: int,
    entries: Seq<EntryView>,
)
    requires
        load.resolutions.valid(),
        0 <= i < load.resolutions.modules.len(),
        load.resolutions.modules[i].code.sound(),
        load.analyzed(i, entries) is Ok,
        forall|x: int|
            0 <= x < done.len() ==> (#[trigger] done[x]).path
                == load.resolutions.modules[i].code.path && entries.contains(
                EntryView::Ident(done[x].ident),
            ),
        ({
            let full = LoadView { resolutions: load.resolutions, stack: load.stack + done };
            let module = load.resolutions.modules[i];
            forall|n: int|
                0 <= n < module.code.source.declarations.len() && (
                #[trigger] module.code.source.declarations[n]).is_used(module.used)
                    ==> full.decl_resolved(i, n) || entries.contains(EntryView::Decl(n as usize))
        }),
    ensures
        load.analyzed(i, entries)->Ok_0.module_resolved(i),
{
    let full = LoadView { resolutions: load.resolutions, stack: load.stack + done };
    let after = load.analyzed(i, entries)->Ok_0;
    let module = load.resolutions.modules[i];
    let code = module.code;
    let decls = code.source.declarations;
    let analysis = analyze(code, module.used, Seq::empty(), entries);
    let items = analysis.outcome->Ok_0;
    lemma_analyze(code, module.used, Seq::empty(), entries);
    assert forall|n: int|
        0 <= n < decls.len() && (#[trigger] decls[n]).is_used(analysis.used) implies
        after.decl_resolved(i, n) by {
        let types = post_orders(decls[n].types);
        assert forall|k: int| 0 <= k < types.len() implies after.resolved(
            i,
            code.reference(#[trigger] types[k]),
        ) by {
            let step = code.reference(types[k]);
            if decls[n].is_used(module.used) && full.decl_resolved(i, n) {
                assert(full.resolved(i, step));
                if step is Refer {
                    let item = step->Refer_0;
                    lemma_settled_analyzed(
                        load,
                        done,
                        i,
                        entries,
                        Place { path: item.path, ident: item.ident },
                    );
                }
            } else if decls[n].is_used(module.used) {
                let e = choose|e: int|
                    0 <= e < entries.len() && entries[e] == EntryView::Decl(n as usize);
                assert(code.entry_followed(analysis.used, items, entries[e]));
                assert(code.types_of(n as usize) == types);
                lemma_taken(load, i, entries, step);
            } else {
                let id = decls[n].ident()->0.id;
                assert(analysis.used.contains(id) && !module.used.contains(id));
                let m = (by_id(code.idents(), id)->0).1;
                lemma_decl_index(decls);
                lemma_by_id(code.idents(), id);
                assert(decls[m as int].declares(id));
                if m < n {
                    assert(decls[m as int].ident()->0.id != decls[n].ident()->0.id);
                } else if n < m {
                    assert(decls[n].ident()->0.id != decls[m as int].ident()->0.id);
                }
                assert(code.types_of(m) == types);
                lemma_taken(load, i, entries, step);
            }
        }
    }
}

/// The references of a module stay resolved when another module is loaded.
proof fn lemma_resolved_push(load: LoadView, module: ModuleView, j: int)
    requires
        load.resolutions.valid(),
        position(load.resolutions.modules, module.code.path) is None,
        0 <= j < load.resolutions.modules.len(),
        load.module_resolved(j),
    ensures
        (LoadView {
            resolutions: load.resolutions.push(module),
            stack: load.stack,
        }).module_resolved(j),
{
    let after = LoadView { resolutions: load.resolutions.push(module), stack: load.stack };
    let old_module = load.resolutions.modules[j];
    let decls = old_module.code.source.declarations;
    assert(after.resolutions.modules[j] == old_module);
    assert forall|n: int|
        0 <= n < decls.len() && (#[trigger] decls[n]).is_used(old_module.used) implies
        after.decl_resolved(j, n) by {
        assert(load.decl_resolved(j, n));
        let types = post_orders(decls[n].types);
        assert forall|k: int| 0 <= k < types.len() implies after.resolved(
            j,
            old_module.code.reference(#[trigger] types[k]),
        ) by {
            let step = old_module.code.reference(types[k]);
            assert(load.resolved(j, step));
            if step is Refer {
                let item = step->Refer_0;
                lemma_settled_push(
                    load,
                    module,
                    Place { path: item.path, ident: item.ident },
                );
            }
        }
    }
}

/// Whether every answer is a module whose identifiers are used as their identity demands.
pub open spec fn sound_answers(exchanges: Seq<Exchange>) -> bool {
    forall|x: int|
        0 <= x < exchanges.len() ==> ((#[trigger] exchanges[x]).answer matches Ok(source)
            ==> source.sound(exchanges[x].path))
}

impl LoadView {
    /// What holds of the references while modules are loaded: those of used declarations
    /// lead to used declarations, as far as they are followed, and so do the identifiers to
    /// keep.
    pub open spec fn coherent(self, keep: Option<Seq<IdentView>>) -> bool {
        let modules = self.resolutions.modules;
        &&& self.ordered()
        &&& forall|i: int| 0 <= i < modules.len() ==> (#[trigger] modules[i]).code.sound()
        &&& forall|i: int| 0 <= i < modules.len() ==> #[trigger] self.module_resolved(i)
        &&& keep matches Some(idents) ==> forall|k: int|
            0 <= k < idents.len() ==> self.settled(
                Place { path: modules[0].code.path, ident: #[trigger] idents[k] },
            )
    }
}

/// The root module is loaded coherently.
proof fn lemma_root_coherent(source: UnitView, path: PathView, keep: Option<Seq<IdentView>>)
    requires
        source.sound(path),
        load_root(source, path, keep) is Ok,
    ensures
        load_root(source, path, keep)->Ok_0.coherent(keep),
{
    let load = root_load(source, path);
    let module = loaded_module(source, path);
    let decls = module.code.source.declarations;
    let entries = root_entrypoints(source, path, keep);
    let own = entrypoints(decls, keep is None);
    let after = load_root(source, path, keep)->Ok_0;
    lemma_loaded_sound(source, path);
    lemma_root_load(source, path);
    lemma_analyzed_ordered(load, 0, entries);
    lemma_entrypoints(decls, keep is None);
    assert forall|x: EntryView| own.contains(x) implies #[trigger] entries.contains(x) by {
        let j = choose|j: int| 0 <= j < own.len() && own[j] == x;
        assert(entries[j] == x);
    }
    let full = LoadView {
        resolutions: load.resolutions,
        stack: load.stack + Seq::<ExtView>::empty(),
    };
    assert forall|n: int| 0 <= n < decls.len() && (#[trigger] decls[n]).is_used(module.used) implies
        full.decl_resolved(0, n) || entries.contains(EntryView::Decl(n as usize)) by {
        if decls[n].kind is Void {
            assert(post_orders(decls[n].types).len() == 0);
        }
    }
    lemma_analyzed_module(load, Seq::empty(), 0, entries);
    if keep is Some {
        let idents = keep->0;
        assert forall|k: int| 0 <= k < idents.len() implies after.settled(
            Place { path, ident: #[trigger] idents[k] },
        ) by {
            let asked = ExtView { from: path, path, ident: idents[k] };
            let done = seq![asked];
            let place = Place { path, ident: idents[k] };
            let waits = LoadView { resolutions: load.resolutions, stack: load.stack + done };
            assert(entries[own.len() + k] == EntryView::Ident(idents[k]));
            assert(entries.contains(EntryView::Ident(idents[k])));
            assert(waits.stack[0] == asked);
            assert(waits.ends(place));
            assert(reach(waits.resolutions.modules, place, 0) == Some(place));
            lemma_settled_analyzed(load, done, 0, entries, place);
        }
    }
}

/// Resolving an item in a module that is loaded already keeps the loading coherent.
proof fn lemma_step_coherent(load: LoadView, keep: Option<Seq<IdentView>>)
    requires
        load.coherent(keep),
        load.stack.len() > 0,
        load.next_module() is Some,
        load.step() is Ok,
    ensures
        load.step()->Ok_0.coherent(keep),
{
    let modules = load.resolutions.modules;
    let item = load.stack.last();
    let i = load.next_module()->0;
    let entries = seq![EntryView::Ident(item.ident)];
    let done = seq![item];
    let after = load.step()->Ok_0;
    lemma_position(modules, item.path);
    lemma_analyzed_ordered(load.popped(), i, entries);
    assert(load.popped().stack + done =~= load.stack);
    assert(entries[0] == EntryView::Ident(item.ident));
    assert(entries.contains(EntryView::Ident(item.ident)));
    assert(load.module_resolved(i));
    assert(modules[i].code.sound());
    lemma_analyzed_module(load.popped(), done, i, entries);
    assert forall|j: int| 0 <= j < after.resolutions.modules.len() implies
        #[trigger] after.module_resolved(j) by {
        assert(load.module_resolved(j));
        if j != i {
            lemma_other_module(load.popped(), done, i, entries, j);
        }
    }
    if keep is Some {
        let idents = keep->0;
        assert forall|k: int| 0 <= k < idents.len() implies after.settled(
            Place { path: modules[0].code.path, ident: #[trigger] idents[k] },
        ) by {
            let place = Place { path: modules[0].code.path, ident: idents[k] };
            lemma_settled_analyzed(load.popped(), done, i, entries, place);
        }
    }
}

/// Resolving an item in a module that is loaded for it keeps the loading coherent.
proof fn lemma_step_into_coherent(
    load: LoadView,
    source: UnitView,
    keep: Option<Seq<IdentView>>,
)
    requires
        load.coherent(keep),
        load.stack.len() > 0,
        load.next_module() is None,
        source.sound(load.stack.last().path),
        load.step_into(source, keep is None) is Ok,
    ensures
        load.step_into(source, keep is None)->Ok_0.coherent(keep),
{
    let eager = keep is None;
    let modules = load.resolutions.modules;
    let i = modules.len() as int;
    let item = load.stack.last();
    let module = loaded_module(source, item.path);
    let decls = module.code.source.declarations;
    let grown = load.grown(source);
    let own = entrypoints(decls, eager);
    let entries = load.load_entries(source, eager);
    let done = seq![item];
    let full = LoadView { resolutions: grown.resolutions, stack: grown.stack + done };
    let after = load.step_into(source, eager)->Ok_0;
    lemma_grown(load, source);
    lemma_loaded_sound(source, item.path);
    lemma_analyzed_ordered(grown, i, entries);
    assert(full.stack =~= load.stack);
    lemma_entrypoints(decls, eager);
    assert forall|x: EntryView| own.contains(x) implies #[trigger] entries.contains(x) by {
        let j = choose|j: int| 0 <= j < own.len() && own[j] == x;
        assert(entries[j] == x);
    }
    assert(entries[own.len() as int] == EntryView::Ident(item.ident));
    assert(entries.contains(EntryView::Ident(item.ident)));
    assert forall|n: int| 0 <= n < decls.len() && (#[trigger] decls[n]).is_used(module.used) implies
        full.decl_resolved(i, n) || entries.contains(EntryView::Decl(n as usize)) by {
        if decls[n].kind is Void {
            assert(post_orders(decls[n].types).len() == 0);
        }
    }
    lemma_analyzed_module(grown, done, i, entries);
    assert forall|j: int| 0 <= j < after.resolutions.modules.len() implies
        #[trigger] after.module_resolved(j) by {
        if j != i {
            assert(load.module_resolved(j));
            lemma_resolved_push(load, module, j);
            lemma_other_module(grown, done, i, entries, j);
        }
    }
    assert forall|j: int| 0 <= j < after.resolutions.modules.len() implies (
    #[trigger] after.resolutions.modules[j]).code.sound() by {
        if j != i {
            assert(modules[j].code.sound());
        }
    }
    if keep is Some {
        let idents = keep->0;
        assert forall|k: int| 0 <= k < idents.len() implies after.settled(
            Place { path: modules[0].code.path, ident: #[trigger] idents[k] },
        ) by {
            let place = Place { path: modules[0].code.path, ident: idents[k] };
            lemma_settled_push(load, module, place);
            lemma_settled_analyzed(grown, done, i, entries, place);
        }
    }
}

/// A loading that ends well is coherent, and nothing waits any more.
proof fn lemma_run_coherent(
    load: LoadView,
    exchanges: Seq<Exchange>,
    keep: Option<Seq<IdentView>>,
    limit: nat,
    loaded: ResolutionsView,
)
    requires
        load.coherent(keep),
        sound_answers(exchanges),
        run(load, exchanges, keep is None, limit) == LoadOutcome::Done(loaded),
    ensures
        (LoadView { resolutions: loaded, stack: Seq::empty() }).coherent(keep),
    decreases limit,
{
    let eager = keep is None;
    if load.stack.len() == 0 {
        assert(load.stack =~= Seq::empty());
    } else if load.next_module() is Some {
        lemma_step_coherent(load, keep);
        lemma_run_coherent(load.step()->Ok_0, exchanges, keep, (limit - 1) as nat, loaded);
    } else {
        let source = exchanges[0].answer->Ok_0;
        let rest = exchanges.drop_first();
        lemma_step_into_coherent(load, source, keep);
        assert forall|x: int| 0 <= x < rest.len() implies ((
        #[trigger] rest[x]).answer matches Ok(source) ==> source.sound(rest[x].path)) by {
            assert(rest[x] == exchanges[x + 1]);
        }
        lemma_run_coherent(
            load.step_into(source, eager)->Ok_0,
            rest,
            keep,
            (limit - 1) as nat,
            loaded,
        );
    }
}

/// A loading that ends well leaves the modules coherent.
pub proof fn lemma_outcome_coherent(
    source: UnitView,
    path: PathView,
    keep: Option<Seq<IdentView>>,
    exchanges: Seq<Exchange>,
    limit: nat,
    loaded: ResolutionsView,
)
    requires
        source.sound(path),
        sound_answers(exchanges),
        load_outcome(source, path, keep, exchanges, limit) == LoadOutcome::Done(loaded),
    ensures
        (LoadView { resolutions: loaded, stack: Seq::empty() }).coherent(keep),
        (LoadView { resolutions: loaded, stack: Seq::empty() }).attentive(keep),
{
    lemma_root_coherent(source, path, keep);
    lemma_run_coherent(load_root(source, path, keep)->Ok_0, exchanges, keep, limit, loaded);
    assert(fitting_answers(exchanges)) by {
        assert forall|x: int| 0 <= x < exchanges.len() implies ((
        #[trigger] exchanges[x]).answer matches Ok(source) ==> source.fits()) by {}
    }
    lemma_outcome_attentive(source, path, keep, exchanges, limit, loaded);
}

} // verus!
