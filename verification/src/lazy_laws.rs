//! What holds of lazy loading: it loads and uses nothing that it need not.
use crate::load::{
    load_outcome, load_root, loaded_module, root_entrypoints, run, Exchange, LoadOutcome, LoadView,
};
use crate::load_laws::{
    fitting_answers, lemma_analyzed_ordered, lemma_grown, lemma_outcome_ordered, lemma_root_load,
    lemma_run_ordered, root_load,
};
use crate::module::CodeView;
use crate::resolutions::{lemma_position, ResolutionsView};
use crate::syntax::{DeclView, IdentView, PathView, TypeView, UnitView};
use crate::table::by_id;
use crate::usage::{
    analyze, analyze_entry, decl_entrypoints, entrypoints, lemma_unmarked, post_orders, unmarked,
    walk, EntryView, ExtView, Step,
};
use crate::usage_laws::lemma_indexed;
use vstd::prelude::*;

verus! {

/// Declarations and names of modules, given by the paths of the modules.
pub ghost struct Bounds {
    pub decls: Set<(PathView, u64)>,
    pub names: Set<(PathView, IdentView)>,
}

impl Bounds {
    /// Whether the names hold all items.
    pub open spec fn hold_items(self, items: Seq<ExtView>) -> bool {
        forall|k: int|
            0 <= k < items.len() ==> self.names.contains(
                ((#[trigger] items[k]).path, items[k].ident),
            )
    }

    /// Whether the declarations hold all used ones of a module.
    pub open spec fn hold_used(self, path: PathView, used: Set<u64>) -> bool {
        forall|id: u64| #[trigger] used.contains(id) ==> self.decls.contains((path, id))
    }
}

impl CodeView {
    /// Whether a step leads into the bounds: to a declaration or a name in them. A step that
    /// fails leads nowhere, which is well unless the bounds are `strict`.
    pub open spec fn step_within(self, bounds: Bounds, strict: bool, step: Step) -> bool {
        match step {
            Step::Skip => true,
            Step::Enter(n) => bounds.decls.contains(
                (self.path, self.source.declarations[n as int].ident()->0.id),
            ),
            Step::Refer(item) => bounds.names.contains((item.path, item.ident)),
            Step::Fail(_) => !strict,
        }
    }

    /// Whether all references in `types` lead into the bounds.
    pub open spec fn types_within(
        self,
        bounds: Bounds,
        strict: bool,
        types: Seq<TypeView>,
    ) -> bool {
        forall|k: int|
            0 <= k < types.len() ==> self.step_within(
                bounds,
                strict,
                self.reference(#[trigger] types[k]),
            )
    }

    /// Whether bounds are closed in this module: what a declaration in them refers to is in
    /// them, what a `const_assert` refers to is in them, and so is what a name in them
    /// means.
    pub open spec fn closed_within(self, bounds: Bounds, strict: bool) -> bool {
        &&& forall|id: u64| #[trigger]
            bounds.decls.contains((self.path, id)) ==> (by_id(self.idents(), id) matches Some((_, n))
                ==> self.types_within(bounds, strict, self.types_of(n)))
        &&& forall|n: int|
            0 <= n < self.source.declarations.len() && (
            #[trigger] self.source.declarations[n]).kind is ConstAssert ==> self.types_within(
                bounds,
                strict,
                post_orders(self.source.declarations[n].types),
            )
        &&& forall|ident: IdentView| #[trigger]
            bounds.names.contains((self.path, ident)) ==> self.step_within(
                bounds,
                strict,
                self.request(ident),
            )
    }

    /// Whether an entrypoint leads into the bounds.
    pub open spec fn entry_within(self, bounds: Bounds, strict: bool, entry: EntryView) -> bool {
        match entry {
            EntryView::Ident(ident) => self.step_within(bounds, strict, self.request(ident)),
            EntryView::Decl(n) => self.types_within(bounds, strict, self.types_of(n)),
        }
    }
}

/// A walk does not leave closed bounds.
proof fn lemma_walk_within(
    code: CodeView,
    bounds: Bounds,
    strict: bool,
    used: Set<u64>,
    items: Seq<ExtView>,
    pending: Seq<TypeView>,
)
    requires
        code.source.fits(),
        code.closed_within(bounds, strict),
        bounds.hold_used(code.path, used),
        bounds.hold_items(items),
        code.types_within(bounds, strict, pending),
    ensures
        bounds.hold_used(code.path, walk(code, used, items, pending).used),
        walk(code, used, items, pending).outcome matches Ok(found) ==> bounds.hold_items(found),
        strict ==> walk(code, used, items, pending).outcome is Ok,
    decreases unmarked(code.source.declarations, used), pending.len(),
{
    if pending.len() > 0 {
        let rest = pending.drop_first();
        lemma_indexed(code);
        assert(code.indexed(code.reference(pending[0])));
        assert(code.step_within(bounds, strict, code.reference(pending[0])));
        assert forall|k: int| 0 <= k < rest.len() implies code.step_within(
            bounds,
            strict,
            code.reference(#[trigger] rest[k]),
        ) by {
            assert(rest[k] == pending[k + 1]);
        }
        match code.reference(pending[0]) {
            Step::Skip => lemma_walk_within(code, bounds, strict, used, items, rest),
            Step::Enter(n) => {
                if code.fresh(used, n) {
                    let decl = code.source.declarations[n as int];
                    let id = decl.ident()->0.id;
                    assert(decl.declares(id));
                    lemma_unmarked(code.source.declarations, used, id);
                    assert(bounds.decls.contains((code.path, id)));
                    let todo = code.types_of(n) + rest;
                    assert forall|k: int| 0 <= k < todo.len() implies code.step_within(
                        bounds,
                        strict,
                        code.reference(#[trigger] todo[k]),
                    ) by {
                        if k < code.types_of(n).len() {
                            assert(todo[k] == code.types_of(n)[k]);
                        } else {
                            assert(todo[k] == rest[k - code.types_of(n).len()]);
                        }
                    }
                    lemma_walk_within(code, bounds, strict, code.mark(used, n), items, todo);
                } else {
                    lemma_walk_within(code, bounds, strict, used, items, rest);
                }
            },
            Step::Refer(item) => {
                lemma_walk_within(code, bounds, strict, used, items.push(item), rest);
            },
            Step::Fail(_) => {},
        }
    }
}

/// An analysis does not leave closed bounds.
proof fn lemma_analyze_within(
    code: CodeView,
    bounds: Bounds,
    strict: bool,
    used: Set<u64>,
    items: Seq<ExtView>,
    entries: Seq<EntryView>,
)
    requires
        code.source.fits(),
        code.closed_within(bounds, strict),
        bounds.hold_used(code.path, used),
        bounds.hold_items(items),
        forall|k: int|
            0 <= k < entries.len() ==> code.entry_within(bounds, strict, #[trigger] entries[k]),
    ensures
        bounds.hold_used(code.path, analyze(code, used, items, entries).used),
        analyze(code, used, items, entries).outcome matches Ok(found) ==> bounds.hold_items(found),
        strict ==> analyze(code, used, items, entries).outcome is Ok,
    decreases entries.len(),
{
    if entries.len() > 0 {
        let first = analyze_entry(code, used, items, entries[0]);
        let rest = entries.drop_first();
        lemma_indexed(code);
        assert(code.entry_within(bounds, strict, entries[0]));
        match entries[0] {
            EntryView::Decl(n) => {
                lemma_walk_within(code, bounds, strict, used, items, code.types_of(n));
            },
            EntryView::Ident(ident) => {
                assert(code.indexed(code.request(ident)));
                if code.request(ident) is Enter {
                    let n = code.request(ident)->Enter_0;
                    let id = code.source.declarations[n as int].ident()->0.id;
                    assert(bounds.decls.contains((code.path, id)));
                    if code.fresh(used, n) {
                        lemma_walk_within(
                            code,
                            bounds,
                            strict,
                            code.mark(used, n),
                            items,
                            code.types_of(n),
                        );
                    }
                }
            },
        }
        assert forall|k: int| 0 <= k < rest.len() implies code.entry_within(
            bounds,
            strict,
            #[trigger] rest[k],
        ) by {
            assert(rest[k] == entries[k + 1]);
        }
        if first.outcome is Ok {
            lemma_analyze_within(code, bounds, strict, first.used, first.outcome->Ok_0, rest);
        }
    }
}

/// In lazy mode, the entrypoints of a module are its `const_assert`s.
proof fn lemma_lazy_entrypoints(decls: Seq<DeclView>)
    requires
        decls.len() <= usize::MAX,
    ensures
        forall|k: int|
            0 <= k < entrypoints(decls, false).len() ==> ((
            #[trigger] entrypoints(decls, false)[k]) matches EntryView::Decl(n) && n < decls.len()
                && decls[n as int].kind is ConstAssert),
    decreases decls.len(),
{
    if decls.len() > 0 {
        let prev = entrypoints(decls.drop_last(), false);
        let res = entrypoints(decls, false);
        lemma_lazy_entrypoints(decls.drop_last());
        assert(res == prev + decl_entrypoints(decls.last(), (decls.len() - 1) as usize, false));
        assert forall|k: int| 0 <= k < res.len() implies ((
        #[trigger] res[k]) matches EntryView::Decl(n) && n < decls.len()
            && decls[n as int].kind is ConstAssert) by {
            if k < prev.len() {
                assert(res[k] == prev[k]);
                let n = prev[k]->Decl_0;
                assert(decls.drop_last()[n as int] == decls[n as int]);
            }
        }
    }
}

/// The entrypoints of a module that is loaded lazily, with what it is asked for, lead into
/// closed bounds that hold what it is asked for.
proof fn lemma_lazy_entries(
    code: CodeView,
    bounds: Bounds,
    strict: bool,
    asked: Seq<IdentView>,
    entries: Seq<EntryView>,
)
    requires
        code.source.fits(),
        code.closed_within(bounds, strict),
        forall|k: int| 0 <= k < asked.len() ==> bounds.names.contains((code.path, #[trigger] asked[k])),
        entries == entrypoints(code.source.declarations, false) + asked.map_values(
            |ident: IdentView| EntryView::Ident(ident),
        ),
    ensures
        forall|k: int|
            0 <= k < entries.len() ==> code.entry_within(bounds, strict, #[trigger] entries[k]),
{
    let decls = code.source.declarations;
    let own = entrypoints(decls, false);
    lemma_lazy_entrypoints(decls);
    assert forall|k: int| 0 <= k < entries.len() implies code.entry_within(
        bounds,
        strict,
        #[trigger] entries[k],
    ) by {
        if k < own.len() {
            assert(entries[k] == own[k]);
            let n = own[k]->Decl_0;
            assert(decls[n as int].kind is ConstAssert);
        } else {
            let ident = asked[k - own.len()];
            assert(entries[k] == EntryView::Ident(ident));
            assert(bounds.names.contains((code.path, ident)));
        }
    }
}

impl LoadView {
    /// Whether the bounds hold all that is used, all that waits to be resolved, and a name
    /// of every module but the root.
    pub open spec fn bounded(self, bounds: Bounds) -> bool {
        let modules = self.resolutions.modules;
        &&& forall|i: int|
            0 <= i < modules.len() ==> bounds.hold_used(
                (#[trigger] modules[i]).code.path,
                modules[i].used,
            )
        &&& bounds.hold_items(self.stack)
        &&& forall|i: int| 0 < i < modules.len() ==> has_name(bounds, (#[trigger] modules[i]).code.path)
    }
}

/// Whether the bounds hold a name of the module at `path`.
pub open spec fn has_name(bounds: Bounds, path: PathView) -> bool {
    exists|ident: IdentView| #[trigger] bounds.names.contains((path, ident))
}

/// Analyzing a module does not leave closed bounds.
proof fn lemma_analyzed_bounded(
    load: LoadView,
    i: int,
    entries: Seq<EntryView>,
    bounds: Bounds,
    strict: bool,
)
    requires
        0 <= i < load.resolutions.modules.len(),
        load.resolutions.modules[i].code.source.fits(),
        load.resolutions.modules[i].code.closed_within(bounds, strict),
        load.bounded(bounds),
        forall|k: int|
            0 <= k < entries.len() ==> load.resolutions.modules[i].code.entry_within(
                bounds,
                strict,
                #[trigger] entries[k],
            ),
    ensures
        strict ==> load.analyzed(i, entries) is Ok,
        load.analyzed(i, entries) matches Ok(next) ==> next.bounded(bounds),
{
    let module = load.resolutions.modules[i];
    let analysis = analyze(module.code, module.used, Seq::empty(), entries);
    assert(bounds.hold_used(module.code.path, module.used));
    lemma_analyze_within(module.code, bounds, strict, module.used, Seq::empty(), entries);
    if analysis.outcome is Ok {
        let items = analysis.outcome->Ok_0;
        let next = load.analyzed(i, entries)->Ok_0;
        assert forall|j: int| 0 <= j < next.resolutions.modules.len() implies bounds.hold_used(
            (#[trigger] next.resolutions.modules[j]).code.path,
            next.resolutions.modules[j].used,
        ) by {
            assert(bounds.hold_used(
                load.resolutions.modules[j].code.path,
                load.resolutions.modules[j].used,
            ));
        }
        assert forall|j: int| 0 <= j < next.stack.len() implies bounds.names.contains(
            ((#[trigger] next.stack[j]).path, next.stack[j].ident),
        ) by {
            if j < load.stack.len() {
                assert(next.stack[j] == load.stack[j]);
            } else {
                assert(next.stack[j] == items[items.len() - 1 - (j - load.stack.len())]);
            }
        }
        assert forall|j: int| 0 < j < next.resolutions.modules.len() implies has_name(
            bounds,
            (#[trigger] next.resolutions.modules[j]).code.path,
        ) by {
            assert(has_name(bounds, load.resolutions.modules[j].code.path));
        }
    }
}

/// A step in a module that is loaded already does not leave closed bounds.
pub proof fn lemma_step_bounded(load: LoadView, bounds: Bounds, strict: bool)
    requires
        load.ordered(),
        load.stack.len() > 0,
        load.next_module() is Some,
        load.bounded(bounds),
        load.resolutions.modules[load.next_module()->0].code.source.fits(),
        load.resolutions.modules[load.next_module()->0].code.closed_within(bounds, strict),
    ensures
        strict ==> load.step() is Ok,
        load.step() matches Ok(next) ==> next.bounded(bounds),
{
    let item = load.stack.last();
    let i = load.next_module()->0;
    let entries = seq![EntryView::Ident(item.ident)];
    lemma_position(load.resolutions.modules, item.path);
    assert(load.stack[load.stack.len() - 1] == item);
    assert(bounds.names.contains((item.path, item.ident)));
    assert forall|j: int| 0 <= j < load.popped().stack.len() implies bounds.names.contains(
        ((#[trigger] load.popped().stack[j]).path, load.popped().stack[j].ident),
    ) by {
        assert(load.popped().stack[j] == load.stack[j]);
    }
    lemma_analyzed_bounded(load.popped(), i, entries, bounds, strict);
}

/// A step in a module that is loaded for it does not leave closed bounds.
pub proof fn lemma_step_into_bounded(load: LoadView, source: UnitView, bounds: Bounds, strict: bool)
    requires
        load.ordered(),
        load.stack.len() > 0,
        load.next_module() is None,
        load.bounded(bounds),
        source.fits(),
        loaded_module(source, load.stack.last().path).code.closed_within(bounds, strict),
    ensures
        strict ==> load.step_into(source, false) is Ok,
        load.step_into(source, false) matches Ok(next) ==> next.bounded(bounds),
{
    let item = load.stack.last();
    let grown = load.grown(source);
    let i = load.resolutions.modules.len() as int;
    let entries = load.load_entries(source, false);
    let code = loaded_module(source, item.path).code;
    lemma_grown(load, source);
    assert(load.stack[load.stack.len() - 1] == item);
    assert(bounds.names.contains((item.path, item.ident)));
    let asked = seq![item.ident];
    assert(entries =~= entrypoints(code.source.declarations, false) + asked.map_values(
        |ident: IdentView| EntryView::Ident(ident),
    ));
    lemma_lazy_entries(code, bounds, strict, asked, entries);
    assert forall|j: int| 0 <= j < grown.resolutions.modules.len() implies bounds.hold_used(
        (#[trigger] grown.resolutions.modules[j]).code.path,
        grown.resolutions.modules[j].used,
    ) by {
        if j < i {
            assert(bounds.hold_used(
                load.resolutions.modules[j].code.path,
                load.resolutions.modules[j].used,
            ));
        }
    }
    assert forall|j: int| 0 <= j < grown.stack.len() implies bounds.names.contains(
        ((#[trigger] grown.stack[j]).path, grown.stack[j].ident),
    ) by {
        assert(grown.stack[j] == load.stack[j]);
    }
    assert forall|j: int| 0 < j < grown.resolutions.modules.len() implies has_name(
        bounds,
        (#[trigger] grown.resolutions.modules[j]).code.path,
    ) by {
        if j < i {
            assert(has_name(bounds, load.resolutions.modules[j].code.path));
        }
    }
    lemma_analyzed_bounded(grown, i, entries, bounds, strict);
}

/// Loading the root module does not leave closed bounds that hold what is to be kept.
pub proof fn lemma_root_bounded(
    source: UnitView,
    path: PathView,
    keep: Seq<IdentView>,
    bounds: Bounds,
    strict: bool,
)
    requires
        source.fits(),
        loaded_module(source, path).code.closed_within(bounds, strict),
        forall|k: int| 0 <= k < keep.len() ==> bounds.names.contains((path, #[trigger] keep[k])),
    ensures
        strict ==> load_root(source, path, Some(keep)) is Ok,
        load_root(source, path, Some(keep)) matches Ok(next) ==> next.bounded(bounds),
{
    let load = root_load(source, path);
    let code = loaded_module(source, path).code;
    let entries = root_entrypoints(source, path, Some(keep));
    lemma_lazy_entries(code, bounds, strict, keep, entries);
    lemma_analyzed_bounded(load, 0, entries, bounds, strict);
}

/// A lazy loading does not leave closed bounds.
proof fn lemma_run_bounded(
    load: LoadView,
    exchanges: Seq<Exchange>,
    limit: nat,
    loaded: ResolutionsView,
    bounds: Bounds,
)
    requires
        load.ordered(),
        load.bounded(bounds),
        fitting_answers(exchanges),
        run(load, exchanges, false, limit) == LoadOutcome::Done(loaded),
        forall|i: int|
            0 <= i < load.resolutions.modules.len() ==> (
            #[trigger] load.resolutions.modules[i]).code.source.fits(),
        forall|i: int|
            0 <= i < loaded.modules.len() ==> (#[trigger] loaded.modules[i]).code.closed_within(
                bounds,
                false,
            ),
    ensures
        (LoadView { resolutions: loaded, stack: Seq::empty() }).bounded(bounds),
    decreases limit,
{
    lemma_run_ordered(load, exchanges, false, limit, loaded);
    let modules = load.resolutions.modules;
    if load.stack.len() == 0 {
        assert(load.stack =~= Seq::empty());
    } else if load.next_module() is Some {
        let i = load.next_module()->0;
        let next = load.step()->Ok_0;
        let entries = seq![EntryView::Ident(load.stack.last().ident)];
        lemma_position(modules, load.stack.last().path);
        assert(loaded.modules[i].code == modules[i].code);
        lemma_step_bounded(load, bounds, false);
        lemma_analyzed_ordered(load.popped(), i, entries);
        assert forall|j: int| 0 <= j < next.resolutions.modules.len() implies (
        #[trigger] next.resolutions.modules[j]).code.source.fits() by {
            assert(modules[j].code.source.fits());
        }
        lemma_run_bounded(next, exchanges, (limit - 1) as nat, loaded, bounds);
    } else {
        let i = modules.len() as int;
        let source = exchanges[0].answer->Ok_0;
        let rest = exchanges.drop_first();
        let next = load.step_into(source, false)->Ok_0;
        let grown = load.grown(source);
        lemma_grown(load, source);
        lemma_analyzed_ordered(grown, i, load.load_entries(source, false));
        lemma_run_ordered(next, rest, false, (limit - 1) as nat, loaded);
        assert(next.resolutions.modules[i].code == grown.resolutions.modules[i].code);
        assert(loaded.modules[i].code == next.resolutions.modules[i].code);
        lemma_step_into_bounded(load, source, bounds, false);
        assert forall|j: int| 0 <= j < next.resolutions.modules.len() implies (
        #[trigger] next.resolutions.modules[j]).code.source.fits() by {
            assert(next.resolutions.modules[j].code == grown.resolutions.modules[j].code);
            if j < i {
                assert(modules[j].code.source.fits());
            }
        }
        assert forall|x: int| 0 <= x < rest.len() implies ((
        #[trigger] rest[x]).answer matches Ok(source) ==> source.fits()) by {
            assert(rest[x] == exchanges[x + 1]);
        }
        lemma_run_bounded(next, rest, (limit - 1) as nat, loaded, bounds);
    }
}

/// A lazy loading that ends well has not left closed bounds that hold what is to be kept.
proof fn lemma_outcome_bounded(
    source: UnitView,
    path: PathView,
    keep: Seq<IdentView>,
    exchanges: Seq<Exchange>,
    limit: nat,
    loaded: ResolutionsView,
    bounds: Bounds,
)
    requires
        source.fits(),
        fitting_answers(exchanges),
        load_outcome(source, path, Some(keep), exchanges, limit) == LoadOutcome::Done(loaded),
        forall|k: int| 0 <= k < keep.len() ==> bounds.names.contains((path, #[trigger] keep[k])),
        forall|i: int|
            0 <= i < loaded.modules.len() ==> (#[trigger] loaded.modules[i]).code.closed_within(
                bounds,
                false,
            ),
    ensures
        (LoadView { resolutions: loaded, stack: Seq::empty() }).bounded(bounds),
{
    let first = load_root(source, path, Some(keep))->Ok_0;
    let load = root_load(source, path);
    let entries = root_entrypoints(source, path, Some(keep));
    lemma_outcome_ordered(source, path, Some(keep), exchanges, limit, loaded);
    assert(loaded.modules[0].code.closed_within(bounds, false));
    lemma_root_bounded(source, path, keep, bounds, false);
    lemma_root_load(source, path);
    lemma_analyzed_ordered(load, 0, entries);
    assert(first.resolutions.modules[0].code == load.resolutions.modules[0].code);
    lemma_run_bounded(first, exchanges, limit, loaded, bounds);
}

/// Lazy loading is least. Take any declarations and names such that the names hold what is
/// to be kept in the root module, and which are closed: what a declaration among them, or a
/// `const_assert` of a loaded module, refers to is among them, and so is what a name among
/// them means in its module. Then all that is used is among the declarations, and every
/// loaded module but the root has a name among the names.
pub proof fn law_lazy_loading_is_least(
    source: UnitView,
    path: PathView,
    keep: Seq<IdentView>,
    exchanges: Seq<Exchange>,
    limit: nat,
    loaded: ResolutionsView,
    bounds: Bounds,
)
    requires
        source.fits(),
        fitting_answers(exchanges),
        load_outcome(source, path, Some(keep), exchanges, limit) == LoadOutcome::Done(loaded),
        forall|k: int| 0 <= k < keep.len() ==> bounds.names.contains((path, #[trigger] keep[k])),
        forall|i: int|
            0 <= i < loaded.modules.len() ==> (#[trigger] loaded.modules[i]).code.closed_within(
                bounds,
                false,
            ),
    ensures
        forall|i: int, id: u64|
            0 <= i < loaded.modules.len() && #[trigger] loaded.modules[i].used.contains(id)
                ==> bounds.decls.contains((loaded.modules[i].code.path, id)),
        forall|i: int|
            0 < i < loaded.modules.len() ==> exists|ident: IdentView| #[trigger]
                bounds.names.contains(((#[trigger] loaded.modules[i]).code.path, ident)),
{
    lemma_outcome_bounded(source, path, keep, exchanges, limit, loaded, bounds);
    assert forall|i: int, id: u64|
        0 <= i < loaded.modules.len()
            && #[trigger] loaded.modules[i].used.contains(id) implies bounds.decls.contains(
        (loaded.modules[i].code.path, id),
    ) by {
        assert(bounds.hold_used(loaded.modules[i].code.path, loaded.modules[i].used));
    }
    assert forall|i: int| 0 < i < loaded.modules.len() implies exists|ident: IdentView|
     #[trigger]
        bounds.names.contains(((#[trigger] loaded.modules[i]).code.path, ident)) by {
        assert(has_name(bounds, loaded.modules[i].code.path));
    }
}

} // verus!
