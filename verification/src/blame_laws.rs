//! What holds of every loading that fails: which module is to blame.
use crate::error::{ErrorView, ImportErrorView};
use crate::load::{
    lemma_entrypoints_bound, load_outcome, load_root, loaded_module, root_entrypoints, run,
    Exchange, LoadOutcome, LoadView,
};
use crate::load_laws::{
    fitting_answers, lemma_analyzed_ordered, lemma_grown, lemma_root_load, root_load, same_code,
};
use crate::module::{CodeView, ModuleView};
use crate::resolutions::{lemma_position, lemma_position_paths, position};
use crate::syntax::{IdentView, PathView, TypeView, UnitView};
use crate::usage::{
    analyze, analyze_entry, entrypoints, lemma_unmarked, post_orders, unmarked, walk, EntryView,
    ExtView, Step,
};
use crate::usage_laws::lemma_indexed;
use vstd::prelude::*;

verus! {

/// Whether an error says of the module at `path` that it lacks something or hides it.
pub open spec fn speaks_of(error: ImportErrorView, path: PathView) -> bool {
    match error {
        ImportErrorView::MissingDecl(p, _) => p == path,
        ImportErrorView::Private(_, p) => p == path,
        _ => false,
    }
}

/// Whether a step refers to an item of the module at `path`.
pub open spec fn leads_to(step: Step, path: PathView) -> bool {
    step matches Step::Refer(item) && item.path == path
}

impl CodeView {
    /// Whether a type expression occurs in one of the declarations.
    pub open spec fn mentions(self, ty: TypeView) -> bool {
        exists|n: int, k: int|
            0 <= n < self.source.declarations.len() && 0 <= k < post_orders(
                self.source.declarations[n].types,
            ).len() && #[trigger] post_orders(self.source.declarations[n].types)[k] == ty
    }

    /// Whether the module refers to the one at `path`: a type expression in one of its
    /// declarations is imported from there, or it re-exports an item from there.
    pub open spec fn refers_to(self, path: PathView) -> bool {
        ||| exists|ty: TypeView|
            self.mentions(ty) && leads_to(#[trigger] self.reference(ty), path)
        ||| exists|ident: IdentView| leads_to(#[trigger] self.request(ident), path)
    }

    /// Whether all type expressions occur in the declarations.
    pub open spec fn mentions_all(self, types: Seq<TypeView>) -> bool {
        forall|k: int| 0 <= k < types.len() ==> self.mentions(#[trigger] types[k])
    }

    /// Whether all items are used by the module, which refers to where they are.
    pub open spec fn uses_all(self, items: Seq<ExtView>) -> bool {
        forall|k: int|
            0 <= k < items.len() ==> (#[trigger] items[k]).from == self.path && self.refers_to(
                items[k].path,
            )
    }
}

proof fn lemma_own_types(code: CodeView, n: int)
    requires
        0 <= n < code.source.declarations.len(),
    ensures
        code.mentions_all(post_orders(code.source.declarations[n].types)),
{
    let types = post_orders(code.source.declarations[n].types);
    assert forall|k: int| 0 <= k < types.len() implies code.mentions(#[trigger] types[k]) by {
        assert(post_orders(code.source.declarations[n].types)[k] == types[k]);
    }
}

/// What a walk fails with, and whom the items it finds are used by.
proof fn lemma_walk_blames(
    code: CodeView,
    used: Set<u64>,
    items: Seq<ExtView>,
    pending: Seq<TypeView>,
)
    requires
        code.mentions_all(pending),
        code.uses_all(items),
    ensures
        walk(code, used, items, pending).outcome matches Err(e) ==> speaks_of(e, code.path),
        walk(code, used, items, pending).outcome matches Ok(found) ==> code.uses_all(found),
    decreases unmarked(code.source.declarations, used), pending.len(),
{
    if pending.len() > 0 {
        let rest = pending.drop_first();
        let ty = pending[0];
        assert(code.mentions(ty));
        assert forall|k: int| 0 <= k < rest.len() implies code.mentions(#[trigger] rest[k]) by {
            assert(rest[k] == pending[k + 1]);
        }
        match code.reference(ty) {
            Step::Skip => lemma_walk_blames(code, used, items, rest),
            Step::Enter(n) => {
                if code.fresh(used, n) {
                    let decl = code.source.declarations[n as int];
                    assert(decl.declares(decl.ident()->0.id));
                    lemma_unmarked(code.source.declarations, used, decl.ident()->0.id);
                    lemma_own_types(code, n as int);
                    let todo = code.types_of(n) + rest;
                    assert forall|k: int| 0 <= k < todo.len() implies code.mentions(
                        #[trigger] todo[k],
                    ) by {
                        if k < code.types_of(n).len() {
                            assert(todo[k] == code.types_of(n)[k]);
                        } else {
                            assert(todo[k] == rest[k - code.types_of(n).len()]);
                        }
                    }
                    lemma_walk_blames(code, code.mark(used, n), items, todo);
                } else {
                    lemma_walk_blames(code, used, items, rest);
                }
            },
            Step::Refer(item) => {
                assert(leads_to(code.reference(ty), item.path));
                lemma_walk_blames(code, used, items.push(item), rest);
            },
            Step::Fail(_) => {},
        }
    }
}

/// What an analysis fails with, and whom the items it finds are used by.
proof fn lemma_analyze_blames(
    code: CodeView,
    used: Set<u64>,
    items: Seq<ExtView>,
    entries: Seq<EntryView>,
)
    requires
        code.source.fits(),
        code.uses_all(items),
        forall|k: int|
            0 <= k < entries.len() ==> ((#[trigger] entries[k]) matches EntryView::Decl(n) ==> n
                < code.source.declarations.len()),
    ensures
        analyze(code, used, items, entries).outcome matches Err(e) ==> speaks_of(e, code.path),
        analyze(code, used, items, entries).outcome matches Ok(found) ==> code.uses_all(found),
    decreases entries.len(),
{
    if entries.len() > 0 {
        let first = analyze_entry(code, used, items, entries[0]);
        let rest = entries.drop_first();
        match entries[0] {
            EntryView::Decl(n) => {
                lemma_own_types(code, n as int);
                lemma_walk_blames(code, used, items, code.types_of(n));
            },
            EntryView::Ident(ident) => {
                lemma_indexed(code);
                assert(code.indexed(code.request(ident)));
                if code.request(ident) is Enter {
                    let n = code.request(ident)->Enter_0;
                    lemma_own_types(code, n as int);
                    lemma_walk_blames(code, code.mark(used, n), items, code.types_of(n));
                } else if code.request(ident) is Refer {
                    let item = code.request(ident)->Refer_0;
                    assert(leads_to(code.request(ident), item.path));
                    assert(code.uses_all(items.push(item)));
                }
            },
        }
        if first.outcome is Ok {
            assert forall|k: int| 0 <= k < rest.len() implies ((
            #[trigger] rest[k]) matches EntryView::Decl(n) ==> n
                < code.source.declarations.len()) by {
                assert(rest[k] == entries[k + 1]);
            }
            lemma_analyze_blames(code, first.used, first.outcome->Ok_0, rest);
        }
    }
}

/// Whether the module at `from` is loaded, and refers to the one at `to`.
pub open spec fn loaded_referrer(modules: Seq<ModuleView>, from: PathView, to: PathView) -> bool {
    position(modules, from) matches Some(i) && modules[i].code.refers_to(to)
}

impl LoadView {
    /// Whether every item that waits to be resolved is used by a loaded module, which refers
    /// to where it is.
    pub open spec fn users_loaded(self) -> bool {
        forall|j: int|
            0 <= j < self.stack.len() ==> loaded_referrer(
                self.resolutions.modules,
                (#[trigger] self.stack[j]).from,
                self.stack[j].path,
            )
    }
}

/// Modules with the same code refer to the same modules.
proof fn lemma_same_referrer(
    a: Seq<ModuleView>,
    b: Seq<ModuleView>,
    from: PathView,
    to: PathView,
)
    requires
        a.len() == b.len(),
        same_code(a, b),
    ensures
        loaded_referrer(a, from, to) == loaded_referrer(b, from, to),
{
    assert forall|i: int| 0 <= i < a.len() implies (#[trigger] a[i]).code.path
        == b[i].code.path by {
        assert(b[i].code == a[i].code);
    }
    lemma_position_paths(a, b, from);
    lemma_position(a, from);
}

/// What the analysis of a module fails with, and whom the items it finds are used by.
proof fn lemma_analyzed_blames(load: LoadView, i: int, entries: Seq<EntryView>)
    requires
        load.ordered(),
        0 <= i < load.resolutions.modules.len(),
        load.resolutions.modules[i].code.source.fits(),
        load.users_loaded(),
        forall|k: int|
            0 <= k < entries.len() ==> ((#[trigger] entries[k]) matches EntryView::Decl(n) ==> n
                < load.resolutions.modules[i].code.source.declarations.len()),
    ensures
        load.analyzed(i, entries) matches Err(e) ==> speaks_of(
            e,
            load.resolutions.modules[i].code.path,
        ),
        load.analyzed(i, entries) matches Ok(next) ==> next.users_loaded(),
{
    let module = load.resolutions.modules[i];
    let analysis = analyze(module.code, module.used, Seq::empty(), entries);
    lemma_analyze_blames(module.code, module.used, Seq::empty(), entries);
    if analysis.outcome is Ok {
        let items = analysis.outcome->Ok_0;
        let next = load.analyzed(i, entries)->Ok_0;
        lemma_analyzed_ordered(load, i, entries);
        lemma_position(load.resolutions.modules, module.code.path);
        let p = position(load.resolutions.modules, module.code.path)->0;
        if p < i {
            assert(load.resolutions.modules[p].code.path != load.resolutions.modules[i].code.path);
        } else if i < p {
            assert(load.resolutions.modules[i].code.path != load.resolutions.modules[p].code.path);
        }
        assert forall|j: int| 0 <= j < next.stack.len() implies loaded_referrer(
            next.resolutions.modules,
            (#[trigger] next.stack[j]).from,
            next.stack[j].path,
        ) by {
            let item = next.stack[j];
            if j < load.stack.len() {
                assert(item == load.stack[j]);
            } else {
                assert(item == items[items.len() - 1 - (j - load.stack.len())]);
            }
            lemma_same_referrer(
                load.resolutions.modules,
                next.resolutions.modules,
                item.from,
                item.path,
            );
        }
    }
}

/// Whether an error is an import error which says of the module at `path` that it lacks
/// something or hides it.
pub open spec fn is_import_error_of(error: ErrorView, path: PathView) -> bool {
    exists|e: ImportErrorView| error == #[trigger] ErrorView::import(e) && speaks_of(e, path)
}

/// Whether an error is the resolver's answer in an exchange.
pub open spec fn is_reported(exchange: Exchange, error: ErrorView) -> bool {
    exchange.answer matches Err(e) && error == ErrorView::resolve(e)
}

/// Whether an exchange answered with the module at `from`, and that refers to the one at
/// `to`.
pub open spec fn is_referrer(exchange: Exchange, from: PathView, to: PathView) -> bool {
    exchange.path == from && (exchange.answer matches Ok(source) && loaded_module(
        source,
        from,
    ).code.refers_to(to))
}

/// Whether the resolver answered with a module at `from` that refers to the one at `to`.
pub open spec fn answered_referrer(
    exchanges: Seq<Exchange>,
    from: PathView,
    to: PathView,
) -> bool {
    exists|y: int| 0 <= y < exchanges.len() && is_referrer(#[trigger] exchanges[y], from, to)
}

/// Whether an error comes from an exchange about a module to which the one at `path` refers,
/// where `modules` were loaded before.
spec fn reported_to(
    modules: Seq<ModuleView>,
    exchanges: Seq<Exchange>,
    error: ErrorView,
    path: PathView,
) -> bool {
    exists|x: int|
        0 <= x < exchanges.len() && is_reported(#[trigger] exchanges[x], error) && (
        loaded_referrer(modules, path, exchanges[x].path) || answered_referrer(
            exchanges,
            path,
            exchanges[x].path,
        ))
}

/// Whether a failure is blamed on the right module, where `modules` were loaded before.
spec fn blamed_well(
    outcome: LoadOutcome,
    modules: Seq<ModuleView>,
    exchanges: Seq<Exchange>,
) -> bool {
    outcome matches LoadOutcome::Failed(error, path) ==> is_import_error_of(error, path)
        || reported_to(modules, exchanges, error, path)
}

/// Resolving an item in a module that is loaded already is blamed well.
proof fn lemma_step_blames(
    load: LoadView,
    exchanges: Seq<Exchange>,
    outcome: LoadOutcome,
)
    requires
        load.ordered(),
        load.stack.len() > 0,
        load.next_module() is Some,
        load.step() is Ok,
        blamed_well(outcome, load.step()->Ok_0.resolutions.modules, exchanges),
    ensures
        blamed_well(outcome, load.resolutions.modules, exchanges),
{
    let entries = seq![EntryView::Ident(load.stack.last().ident)];
    let next = load.step()->Ok_0;
    lemma_position(load.resolutions.modules, load.stack.last().path);
    lemma_analyzed_ordered(load.popped(), load.next_module()->0, entries);
    if outcome is Failed && !is_import_error_of(outcome->Failed_0, outcome->Failed_1) {
        let x = choose|x: int|
            0 <= x < exchanges.len() && is_reported(#[trigger] exchanges[x], outcome->Failed_0) && (
            loaded_referrer(next.resolutions.modules, outcome->Failed_1, exchanges[x].path)
                || answered_referrer(exchanges, outcome->Failed_1, exchanges[x].path));
        lemma_same_referrer(
            load.resolutions.modules,
            next.resolutions.modules,
            outcome->Failed_1,
            exchanges[x].path,
        );
    }
}

/// Resolving an item in a module that is loaded for it is blamed well.
proof fn lemma_step_into_blames(
    load: LoadView,
    exchanges: Seq<Exchange>,
    eager: bool,
    outcome: LoadOutcome,
)
    requires
        load.ordered(),
        load.stack.len() > 0,
        load.next_module() is None,
        exchanges.len() > 0,
        exchanges[0].path == load.stack.last().path,
        exchanges[0].answer is Ok,
        load.step_into(exchanges[0].answer->Ok_0, eager) is Ok,
        blamed_well(
            outcome,
            load.step_into(exchanges[0].answer->Ok_0, eager)->Ok_0.resolutions.modules,
            exchanges.drop_first(),
        ),
    ensures
        blamed_well(outcome, load.resolutions.modules, exchanges),
{
    let source = exchanges[0].answer->Ok_0;
    let rest = exchanges.drop_first();
    let next = load.step_into(source, eager)->Ok_0.resolutions.modules;
    let grown = load.grown(source).resolutions.modules;
    lemma_grown(load, source);
    lemma_analyzed_ordered(
        load.grown(source),
        load.resolutions.modules.len() as int,
        load.load_entries(source, eager),
    );
    if outcome is Failed && !is_import_error_of(outcome->Failed_0, outcome->Failed_1) {
        let path = outcome->Failed_1;
        let x = choose|x: int|
            0 <= x < rest.len() && is_reported(#[trigger] rest[x], outcome->Failed_0) && (
            loaded_referrer(next, path, rest[x].path) || answered_referrer(
                rest,
                path,
                rest[x].path,
            ));
        let to = rest[x].path;
        assert(exchanges[x + 1] == rest[x]);
        if answered_referrer(rest, path, to) {
            let y = choose|y: int|
                0 <= y < rest.len() && is_referrer(#[trigger] rest[y], path, to);
            assert(is_referrer(exchanges[y + 1], path, to));
        } else {
            lemma_same_referrer(grown, next, path, to);
            assert(grown.drop_last() =~= load.resolutions.modules);
            lemma_position(load.resolutions.modules, path);
            if position(load.resolutions.modules, path) is None {
                assert(is_referrer(exchanges[0], path, to));
            }
        }
    }
}

proof fn lemma_run_blames(load: LoadView, exchanges: Seq<Exchange>, eager: bool, limit: nat)
    requires
        load.ordered(),
        forall|i: int|
            0 <= i < load.resolutions.modules.len() ==> (
            #[trigger] load.resolutions.modules[i]).code.source.fits(),
        load.users_loaded(),
        fitting_answers(exchanges),
    ensures
        blamed_well(
            run(load, exchanges, eager, limit),
            load.resolutions.modules,
            exchanges,
        ),
    decreases limit,
{
    if load.stack.len() > 0 && limit > 0 {
        let modules = load.resolutions.modules;
        let item = load.stack.last();
        lemma_position(modules, item.path);
        assert(load.stack[load.stack.len() - 1] == item);
        if load.next_module() is Some {
            let i = load.next_module()->0;
            let entries = seq![EntryView::Ident(item.ident)];
            assert forall|j: int| 0 <= j < load.popped().stack.len() implies loaded_referrer(
                modules,
                (#[trigger] load.popped().stack[j]).from,
                load.popped().stack[j].path,
            ) by {
                assert(load.popped().stack[j] == load.stack[j]);
            }
            lemma_analyzed_blames(load.popped(), i, entries);
            if load.step() is Ok {
                let next = load.step()->Ok_0;
                lemma_analyzed_ordered(load.popped(), i, entries);
                assert forall|j: int| 0 <= j < next.resolutions.modules.len() implies (
                #[trigger] next.resolutions.modules[j]).code.source.fits() by {
                    assert(modules[j].code.source.fits());
                }
                lemma_run_blames(next, exchanges, eager, (limit - 1) as nat);
                lemma_step_blames(
                    load,
                    exchanges,
                    run(next, exchanges, eager, (limit - 1) as nat),
                );
            } else {
                assert(ErrorView::import(load.step()->Err_0).cause is Import);
            }
        } else if exchanges.len() > 0 && exchanges[0].path == item.path {
            if exchanges[0].answer is Ok {
                let source = exchanges[0].answer->Ok_0;
                let grown = load.grown(source);
                let i = modules.len() as int;
                let entries = load.load_entries(source, eager);
                let decls = loaded_module(source, item.path).code.source.declarations;
                lemma_grown(load, source);
                lemma_entrypoints_bound(decls, eager, decls.len() as int);
                assert forall|j: int| 0 <= j < grown.stack.len() implies loaded_referrer(
                    grown.resolutions.modules,
                    (#[trigger] grown.stack[j]).from,
                    grown.stack[j].path,
                ) by {
                    assert(grown.stack[j] == load.stack[j]);
                    lemma_position(modules, grown.stack[j].from);
                    assert(grown.resolutions.modules.drop_last() =~= modules);
                }
                assert forall|k: int| 0 <= k < entries.len() implies ((
                #[trigger] entries[k]) matches EntryView::Decl(n) ==> n < decls.len()) by {
                    if k < entries.len() - 1 {
                        assert(entries[k] == entrypoints(decls, eager)[k]);
                    }
                }
                lemma_analyzed_blames(grown, i, entries);
                if load.step_into(source, eager) is Ok {
                    let next = load.step_into(source, eager)->Ok_0;
                    let rest = exchanges.drop_first();
                    lemma_analyzed_ordered(grown, i, entries);
                    assert forall|j: int| 0 <= j < next.resolutions.modules.len() implies (
                    #[trigger] next.resolutions.modules[j]).code.source.fits() by {
                        assert(next.resolutions.modules[j].code
                            == grown.resolutions.modules[j].code);
                        if j < i {
                            assert(modules[j].code.source.fits());
                        }
                    }
                    assert forall|x: int| 0 <= x < rest.len() implies ((
                    #[trigger] rest[x]).answer matches Ok(source) ==> source.fits()) by {
                        assert(rest[x] == exchanges[x + 1]);
                    }
                    lemma_run_blames(next, rest, eager, (limit - 1) as nat);
                    lemma_step_into_blames(
                        load,
                        exchanges,
                        eager,
                        run(next, rest, eager, (limit - 1) as nat),
                    );
                } else {
                    assert(ErrorView::import(
                        load.step_into(source, eager)->Err_0,
                    ).cause is Import);
                }
            } else {
                assert(is_reported(exchanges[0], ErrorView::resolve(exchanges[0].answer->Err_0)));
            }
        }
    }
}

/// Errors are blamed on the right module. One about a declaration that is missing or
/// private is blamed on the module that should have it. What the resolver reports is blamed
/// on a module that refers to the one which could not be loaded, in a declaration or by a
/// re-export: the root module, or one that the resolver answered with.
pub proof fn law_errors_are_blamed_on_the_right_module(
    source: UnitView,
    path: PathView,
    keep: Option<Seq<IdentView>>,
    exchanges: Seq<Exchange>,
    limit: nat,
    error: ErrorView,
    blamed: PathView,
)
    requires
        source.fits(),
        fitting_answers(exchanges),
        load_outcome(source, path, keep, exchanges, limit) == LoadOutcome::Failed(error, blamed),
    ensures
        is_import_error_of(error, blamed) || exists|x: int|
            0 <= x < exchanges.len() && is_reported(#[trigger] exchanges[x], error) && ((blamed
                == path && loaded_module(source, path).code.refers_to(exchanges[x].path))
                || answered_referrer(exchanges, blamed, exchanges[x].path)),
{
    let load = root_load(source, path);
    let decls = loaded_module(source, path).code.source.declarations;
    let own = entrypoints(decls, keep is None);
    let entries = root_entrypoints(source, path, keep);
    lemma_root_load(source, path);
    lemma_entrypoints_bound(decls, keep is None, decls.len() as int);
    assert forall|k: int| 0 <= k < entries.len() implies ((
    #[trigger] entries[k]) matches EntryView::Decl(n) ==> n < decls.len()) by {
        if k < own.len() {
            assert(entries[k] == own[k]);
        }
    }
    lemma_analyzed_blames(load, 0, entries);
    match load_root(source, path, keep) {
        Ok(next) => {
            lemma_analyzed_ordered(load, 0, entries);
            assert(next.resolutions.modules[0].code == load.resolutions.modules[0].code);
            lemma_run_blames(next, exchanges, keep is None, limit);
            if !is_import_error_of(error, blamed) {
                let modules = next.resolutions.modules;
                let x = choose|x: int|
                    0 <= x < exchanges.len() && is_reported(#[trigger] exchanges[x], error) && (
                    loaded_referrer(modules, blamed, exchanges[x].path) || answered_referrer(
                        exchanges,
                        blamed,
                        exchanges[x].path,
                    ));
                lemma_position(modules, blamed);
            }
        },
        Err(e) => {
            assert(ErrorView::import(e).cause is Import);
        },
    }
}

} // verus!
