//! What holds of the order of every loading.
use crate::error::{ErrorView, ImportErrorView, ResolveErrorView};
use crate::load::{
    answered, asked_in_order, exchanges, load_outcome, load_root, loaded_module, root_entrypoints,
    run, Exchange, LoadOutcome, LoadView, Resolver, Trace,
};
use crate::module::ModuleView;
use crate::resolutions::{position, ResolutionsView};
use crate::syntax::{IdentView, PathView, UnitView};
use crate::usage::{analyze, entrypoints, Analysis, EntryView, ExtView};
use vstd::prelude::*;

verus! {

/// A module is found by its path: the first one at the path, and none only if there is none.
pub proof fn law_modules_are_found_by_their_path(modules: Seq<ModuleView>, path: PathView)
    ensures
        match position(modules, path) {
            Some(i) => 0 <= i < modules.len() && modules[i].code.path == path && (forall|j: int|
                0 <= j < i ==> (#[trigger] modules[j]).code.path != path),
            None => forall|j: int|
                0 <= j < modules.len() ==> (#[trigger] modules[j]).code.path != path,
        },
    decreases modules.len(),
{
    if modules.len() > 0 {
        let rest = modules.drop_last();
        law_modules_are_found_by_their_path(rest, path);
        assert forall|j: int| 0 <= j < rest.len() implies #[trigger] rest[j] == modules[j] by {}
        match position(rest, path) {
            Some(i) => {
                assert(rest[i] == modules[i]);
                assert forall|j: int| 0 <= j < i implies (
                #[trigger] modules[j]).code.path != path by {
                    assert(rest[j] == modules[j]);
                }
            },
            None => {
                assert forall|j: int| 0 <= j < rest.len() implies (
                #[trigger] modules[j]).code.path != path by {
                    assert(rest[j] == modules[j]);
                }
                assert(modules[modules.len() - 1] == modules.last());
            },
        }
    }
}

/// Registering a module puts its path last in the order. A module at a new path comes last; one
/// at a path that is taken replaces the module there. No other module changes.
pub proof fn law_registering_adds_a_module(resolutions: ResolutionsView, module: ModuleView)
    ensures
        resolutions.push(module).order == resolutions.order.push(module.code.path),
        (forall|j: int|
            0 <= j < resolutions.modules.len() ==> (#[trigger] resolutions.modules[j]).code.path
                != module.code.path) ==> resolutions.push(module).modules
            == resolutions.modules.push(module),
        forall|j: int|
            0 <= j < resolutions.modules.len() && (#[trigger] resolutions.modules[j]).code.path
                != module.code.path ==> resolutions.push(module).modules[j]
                == resolutions.modules[j],
        (exists|j: int|
            0 <= j < resolutions.modules.len() && (#[trigger] resolutions.modules[j]).code.path
                == module.code.path) ==> resolutions.push(module).modules.len()
            == resolutions.modules.len() && resolutions.push(module).modules.contains(module),
{
    law_modules_are_found_by_their_path(resolutions.modules, module.code.path);
    if position(resolutions.modules, module.code.path) is Some {
        let i = position(resolutions.modules, module.code.path)->0;
        assert(resolutions.push(module).modules[i] == module);
    }
}

/// The modules are handed out in the order of their paths: at each place the first module at
/// the path there.
pub proof fn law_modules_are_handed_out_in_order(resolutions: ResolutionsView, k: int)
    requires
        0 <= k < resolutions.order.len(),
        exists|j: int|
            0 <= j < resolutions.modules.len() && (#[trigger] resolutions.modules[j]).code.path
                == resolutions.order[k],
    ensures
        resolutions.in_order().len() == resolutions.order.len(),
        resolutions.modules.contains(resolutions.in_order()[k]),
        resolutions.in_order()[k].code.path == resolutions.order[k],
{
    law_modules_are_found_by_their_path(resolutions.modules, resolutions.order[k]);
    let i = position(resolutions.modules, resolutions.order[k])->0;
    assert(resolutions.modules[i] == resolutions.in_order()[k]);
}

/// Whether items have been put on a stack so that the first one found is on top, and comes
/// next, and what was there before comes after all of them.
pub open spec fn stacked(before: Seq<ExtView>, items: Seq<ExtView>, after: Seq<ExtView>) -> bool {
    &&& after.len() == before.len() + items.len()
    &&& forall|j: int| 0 <= j < before.len() ==> #[trigger] after[j] == before[j]
    &&& forall|k: int|
        0 <= k < items.len() ==> after[after.len() - 1 - k] == #[trigger] items[k]
}

/// The state after a module is analyzed: what is used there is what the analysis says, nothing
/// else of any module changes, and the items that it refers to come next.
pub open spec fn is_analyzed(
    before: LoadView,
    i: int,
    analysis: Analysis,
    res: Result<LoadView, ImportErrorView>,
) -> bool {
    match analysis.outcome {
        Ok(items) => res matches Ok(after) && {
            let old_modules = before.resolutions.modules;
            let modules = after.resolutions.modules;
            &&& after.resolutions.order == before.resolutions.order
            &&& modules.len() == old_modules.len()
            &&& forall|j: int|
                0 <= j < modules.len() && j != i ==> #[trigger] modules[j] == old_modules[j]
            &&& modules[i].code == old_modules[i].code
            &&& modules[i].used == analysis.used
            &&& stacked(before.stack, items, after.stack)
        },
        Err(e) => res == Err::<LoadView, ImportErrorView>(e),
    }
}

proof fn lemma_is_analyzed(load: LoadView, i: int, entries: Seq<EntryView>)
    requires
        0 <= i < load.resolutions.modules.len(),
    ensures
        is_analyzed(
            load,
            i,
            analyze(
                load.resolutions.modules[i].code,
                load.resolutions.modules[i].used,
                Seq::empty(),
                entries,
            ),
            load.analyzed(i, entries),
        ),
{
    let module = load.resolutions.modules[i];
    let analysis = analyze(module.code, module.used, Seq::empty(), entries);
    if analysis.outcome is Ok {
        let items = analysis.outcome->Ok_0;
        let after = load.analyzed(i, entries)->Ok_0;
        assert forall|k: int| 0 <= k < items.len() implies after.stack[after.stack.len() - 1 - k]
            == #[trigger] items[k] by {}
    }
}

/// A loading starts with the root module alone, which is analyzed from its own entrypoints and
/// then from the identifiers to keep, in this order.
pub proof fn law_the_root_is_analyzed_first(
    source: UnitView,
    path: PathView,
    keep: Option<Seq<IdentView>>,
    entries: Seq<EntryView>,
)
    requires
        ({
            let own = entrypoints(
                loaded_module(source, path).code.source.declarations,
                keep is None,
            );
            &&& entries.len() == own.len() + match keep {
                Some(idents) => idents.len(),
                None => 0,
            }
            &&& forall|k: int| 0 <= k < own.len() ==> #[trigger] entries[k] == own[k]
            &&& keep matches Some(idents) ==> forall|k: int|
                0 <= k < idents.len() ==> entries[own.len() + k] == EntryView::Ident(
                    #[trigger] idents[k],
                )
        }),
    ensures
        is_analyzed(
            LoadView {
                resolutions: ResolutionsView {
                    modules: seq![loaded_module(source, path)],
                    order: seq![path],
                },
                stack: Seq::empty(),
            },
            0,
            analyze(loaded_module(source, path).code, Set::empty(), Seq::empty(), entries),
            load_root(source, path, keep),
        ),
{
    assert(entries =~= root_entrypoints(source, path, keep));
    let load = LoadView {
        resolutions: ResolutionsView {
            modules: seq![loaded_module(source, path)],
            order: seq![path],
        },
        stack: Seq::empty(),
    };
    lemma_is_analyzed(load, 0, entries);
}

/// The item on top of the stack is resolved next. If its module is loaded, the module is asked
/// for it.
pub proof fn law_a_loaded_module_is_asked_for_the_item(load: LoadView, i: int)
    requires
        load.stack.len() > 0,
        0 <= i < load.resolutions.modules.len(),
        load.resolutions.modules[i].code.path == load.stack.last().path,
        forall|j: int|
            0 <= j < i ==> (#[trigger] load.resolutions.modules[j]).code.path
                != load.stack.last().path,
    ensures
        load.next_module() == Some(i),
        is_analyzed(
            LoadView { resolutions: load.resolutions, stack: load.stack.drop_last() },
            i,
            analyze(
                load.resolutions.modules[i].code,
                load.resolutions.modules[i].used,
                Seq::empty(),
                seq![EntryView::Ident(load.stack.last().ident)],
            ),
            load.step(),
        ),
{
    law_modules_are_found_by_their_path(load.resolutions.modules, load.stack.last().path);
    let p = position(load.resolutions.modules, load.stack.last().path);
    if p is Some && p->0 < i {
        assert(load.resolutions.modules[p->0].code.path != load.stack.last().path);
    } else if p is Some && i < p->0 {
        assert(load.resolutions.modules[i].code.path != load.stack.last().path);
    }
    lemma_is_analyzed(load.popped(), i, seq![EntryView::Ident(load.stack.last().ident)]);
}

/// If the module of the item is not loaded, it is loaded, comes last, and is analyzed from its
/// own entrypoints before it is asked for the item.
pub proof fn law_a_new_module_is_analyzed_before_the_item(
    load: LoadView,
    source: UnitView,
    eager: bool,
)
    requires
        load.stack.len() > 0,
        forall|j: int|
            0 <= j < load.resolutions.modules.len() ==> (
            #[trigger] load.resolutions.modules[j]).code.path != load.stack.last().path,
    ensures
        load.next_module() is None,
        ({
            let item = load.stack.last();
            let module = loaded_module(source, item.path);
            is_analyzed(
                LoadView {
                    resolutions: ResolutionsView {
                        modules: load.resolutions.modules.push(module),
                        order: load.resolutions.order.push(item.path),
                    },
                    stack: load.stack.drop_last(),
                },
                load.resolutions.modules.len() as int,
                analyze(
                    module.code,
                    Set::empty(),
                    Seq::empty(),
                    entrypoints(module.code.source.declarations, eager) + seq![
                        EntryView::Ident(item.ident),
                    ],
                ),
                load.step_into(source, eager),
            )
        }),
{
    let item = load.stack.last();
    let module = loaded_module(source, item.path);
    let modules = load.resolutions.modules;
    let grown = LoadView {
        resolutions: ResolutionsView {
            modules: modules.push(module),
            order: load.resolutions.order.push(item.path),
        },
        stack: load.stack.drop_last(),
    };
    let own = entrypoints(module.code.source.declarations, eager);
    let entries = own + seq![EntryView::Ident(item.ident)];
    law_modules_are_found_by_their_path(modules, item.path);
    law_registering_adds_a_module(load.resolutions, module);
    assert(modules.push(module).drop_last() =~= modules);
    assert(entries =~= own.push(EntryView::Ident(item.ident)));
    lemma_is_analyzed(grown, modules.len() as int, entries);
}

/// A loading goes on for as long as an item waits: without one it is done. Each item takes one
/// step. A step that fails in a module ends it, and so does a resolver that has no module.
pub proof fn law_a_loading_goes_on_while_items_wait(
    load: LoadView,
    x: Exchange,
    rest: Seq<Exchange>,
    eager: bool,
    limit: nat,
)
    ensures
        load.stack.len() == 0 ==> run(load, Seq::empty(), eager, limit) == LoadOutcome::Done(
            load.resolutions,
        ),
        load.stack.len() > 0 ==> run(load, Seq::empty(), eager, 0) == LoadOutcome::StepLimit,
        load.stack.len() > 0 && load.next_module() is Some ==> match load.step() {
            Ok(next) => run(load, rest, eager, limit + 1) == run(next, rest, eager, limit),
            Err(e) => run(load, Seq::empty(), eager, limit + 1) == LoadOutcome::Failed(
                ErrorView::import(e),
                load.stack.last().path,
            ),
        },
        load.stack.len() > 0 && load.next_module() is None && x.path == load.stack.last().path
            ==> match x.answer {
            Ok(source) => match load.step_into(source, eager) {
                Ok(next) => run(load, seq![x] + rest, eager, limit + 1) == run(
                    next,
                    rest,
                    eager,
                    limit,
                ),
                Err(e) => run(load, seq![x], eager, limit + 1) == LoadOutcome::Failed(
                    ErrorView::import(e),
                    load.stack.last().path,
                ),
            },
            Err(e) => run(load, seq![x], eager, limit + 1) == LoadOutcome::Failed(
                ErrorView::resolve(e),
                load.stack.last().from,
            ),
        },
{
    assert((seq![x] + rest).drop_first() =~= rest);
    assert(seq![x].drop_first() =~= Seq::empty());
}

/// Modules are visited depth-first: all that the items on top of the stack lead to is loaded
/// before any item below them is looked at. So a loading with more items on the stack is the
/// loading of the upper ones, and then, from where that ends, of the lower ones.
pub proof fn law_loading_is_depth_first(
    resolutions: ResolutionsView,
    lower: Seq<ExtView>,
    upper: Seq<ExtView>,
    a: Seq<Exchange>,
    b: Seq<Exchange>,
    eager: bool,
    m: nat,
    n: nat,
    done: ResolutionsView,
)
    requires
        run(LoadView { resolutions, stack: upper }, a, eager, m) == LoadOutcome::Done(done),
        run(LoadView { resolutions: done, stack: lower }, b, eager, n) is Done || run(
            LoadView { resolutions: done, stack: lower },
            b,
            eager,
            n,
        ) is Failed,
    ensures
        run(LoadView { resolutions, stack: lower + upper }, a + b, eager, m + n) == run(
            LoadView { resolutions: done, stack: lower },
            b,
            eager,
            n,
        ),
    decreases m,
{
    let small = LoadView { resolutions, stack: upper };
    let whole = LoadView { resolutions, stack: lower + upper };
    if upper.len() == 0 {
        assert(lower + upper =~= lower);
        assert(a + b =~= b);
        lemma_more_limit(LoadView { resolutions: done, stack: lower }, b, eager, n, m + n);
    } else {
        assert(whole.stack.last() == upper.last());
        assert(whole.stack.drop_last() =~= lower + upper.drop_last());
        if small.next_module() is Some {
            let next = small.step()->Ok_0;
            let i = small.next_module()->0;
            let entries = seq![EntryView::Ident(upper.last().ident)];
            lemma_same_analysis(small.popped(), whole.popped(), lower, i, entries);
            law_loading_is_depth_first(
                next.resolutions,
                lower,
                next.stack,
                a,
                b,
                eager,
                (m - 1) as nat,
                n,
                done,
            );
        } else {
            let source = a[0].answer->Ok_0;
            let next = small.step_into(source, eager)->Ok_0;
            let module = loaded_module(source, upper.last().path);
            let grown = LoadView {
                resolutions: resolutions.push(module),
                stack: upper.drop_last(),
            };
            let more = LoadView {
                resolutions: resolutions.push(module),
                stack: lower + upper.drop_last(),
            };
            let i = position(grown.resolutions.modules, module.code.path)->0;
            let entries = entrypoints(module.code.source.declarations, eager).push(
                EntryView::Ident(upper.last().ident),
            );
            lemma_same_analysis(grown, more, lower, i, entries);
            assert((a + b)[0] == a[0]);
            assert((a + b).drop_first() =~= a.drop_first() + b);
            law_loading_is_depth_first(
                next.resolutions,
                lower,
                next.stack,
                a.drop_first(),
                b,
                eager,
                (m - 1) as nat,
                n,
                done,
            );
        }
    }
}

/// An analysis does not depend on what waits.
proof fn lemma_same_analysis(
    small: LoadView,
    whole: LoadView,
    lower: Seq<ExtView>,
    i: int,
    entries: Seq<EntryView>,
)
    requires
        small.resolutions == whole.resolutions,
        whole.stack == lower + small.stack,
        small.analyzed(i, entries) is Ok,
    ensures
        whole.analyzed(i, entries) == Ok::<LoadView, ImportErrorView>(
            LoadView {
                resolutions: small.analyzed(i, entries)->Ok_0.resolutions,
                stack: lower + small.analyzed(i, entries)->Ok_0.stack,
            },
        ),
{
    let module = small.resolutions.modules[i];
    let items = analyze(module.code, module.used, Seq::empty(), entries).outcome->Ok_0;
    assert(lower + small.stack + items.reverse() =~= lower + (small.stack + items.reverse()));
}

proof fn lemma_more_limit(
    load: LoadView,
    exchanges: Seq<Exchange>,
    eager: bool,
    limit: nat,
    more: nat,
)
    requires
        limit <= more,
        run(load, exchanges, eager, limit) is Done || run(
            load,
            exchanges,
            eager,
            limit,
        ) is Failed,
    ensures
        run(load, exchanges, eager, more) == run(load, exchanges, eager, limit),
    decreases limit,
{
    if load.stack.len() > 0 {
        if load.next_module() is Some {
            if load.step() is Ok {
                lemma_more_limit(
                    load.step()->Ok_0,
                    exchanges,
                    eager,
                    (limit - 1) as nat,
                    (more - 1) as nat,
                );
            }
        } else if exchanges[0].answer is Ok && load.step_into(
            exchanges[0].answer->Ok_0,
            eager,
        ) is Ok {
            lemma_more_limit(
                load.step_into(exchanges[0].answer->Ok_0, eager)->Ok_0,
                exchanges.drop_first(),
                eager,
                (limit - 1) as nat,
                (more - 1) as nat,
            );
        }
    }
}

/// A loading whose root module fails ends with that failure, blamed on the root, and asks for
/// nothing. Otherwise it goes on from the root module.
pub proof fn law_a_failing_root_ends_the_loading(
    source: UnitView,
    path: PathView,
    keep: Option<Seq<IdentView>>,
    exchanges: Seq<Exchange>,
    limit: nat,
)
    ensures
        match load_root(source, path, keep) {
            Ok(load) => load_outcome(source, path, keep, exchanges, limit) == run(
                load,
                exchanges,
                keep is None,
                limit,
            ),
            Err(e) => load_outcome(source, path, keep, Seq::empty(), limit) == LoadOutcome::Failed(
                ErrorView::import(e),
                path,
            ),
        },
{
}

/// A trace holds what the resolver answered, question by question: whatever a loading uses of a
/// module is what the resolver gave for its path.
pub proof fn law_traces_hold_the_answers<R: Resolver>(resolver: &R, trace: Trace, i: int)
    requires
        answered(resolver, trace),
        0 <= i < trace.len(),
    ensures
        call_ensures(R::resolve_module, (resolver, &trace[i].0), trace[i].1),
        exchanges(trace).len() == trace.len(),
        exchanges(trace)[i].path == trace[i].0@,
        match trace[i].1 {
            Ok(source) => exchanges(trace)[i].answer == Ok::<UnitView, ResolveErrorView>(source@),
            Err(e) => exchanges(trace)[i].answer == Err::<UnitView, ResolveErrorView>(e@),
        },
{
}

/// A resolver that is asked for the modules of an order is asked for each of them but the first
/// one, once and in this order.
pub proof fn law_modules_are_asked_for_in_order(trace: Trace, order: Seq<PathView>)
    requires
        order.len() > 0,
    ensures
        asked_in_order(trace, order) <==> trace.len() == order.len() - 1 && forall|k: int|
            0 < k < order.len() ==> trace[k - 1].0@ == #[trigger] order[k],
{
    if asked_in_order(trace, order) {
        assert forall|k: int| 0 < k < order.len() implies trace[k - 1].0@
            == #[trigger] order[k] by {}
    }
    if trace.len() == order.len() - 1 && forall|k: int|
        0 < k < order.len() ==> trace[k - 1].0@ == #[trigger] order[k] {
        assert forall|i: int| 0 <= i < trace.len() implies (#[trigger] trace[i]).0@
            == order[i + 1] by {
            assert(trace[i + 1 - 1].0@ == order[i + 1]);
        }
    }
}

} // verus!
