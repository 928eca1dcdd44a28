//! What holds of every loading: which modules it loads, in which order, and what it asks of
//! them.
use crate::load::{
    lemma_with_used, load_outcome, load_root, loaded_module, root_entrypoints, run, Exchange,
    LoadOutcome, LoadView,
};
use crate::module::{lemma_decl_index, ModuleView};
use crate::resolutions::{distinct_paths, lemma_position, lemma_push, position, ResolutionsView};
use crate::syntax::{DeclView, IdentView, PathView, UnitView};
use crate::table::lemma_by_id;
use crate::usage::{analyze, decl_entrypoints, entrypoints, EntryView, Step};
use crate::usage_laws::lemma_analyze;
use vstd::prelude::*;

verus! {

impl UnitView {
    /// Whether the positions of the declarations fit a `usize`, as those of a vector do.
    pub open spec fn fits(self) -> bool {
        self.declarations.len() <= usize::MAX
    }
}

/// Whether every answer is a module that fits.
pub open spec fn fitting_answers(exchanges: Seq<Exchange>) -> bool {
    forall|x: int|
        0 <= x < exchanges.len() ==> ((#[trigger] exchanges[x]).answer matches Ok(source)
            ==> source.fits())
}

/// Whether the modules of `a` are the first ones of `b`, whatever is used of them.
pub open spec fn same_code(a: Seq<ModuleView>, b: Seq<ModuleView>) -> bool {
    &&& a.len() <= b.len()
    &&& forall|i: int| 0 <= i < a.len() ==> (#[trigger] b[i]).code == a[i].code
}

impl LoadView {
    /// Whether each module is loaded once, in the order of the paths, and there is a root.
    pub open spec fn ordered(self) -> bool {
        let modules = self.resolutions.modules;
        let order = self.resolutions.order;
        &&& self.resolutions.valid()
        &&& modules.len() > 0
        &&& order.len() == modules.len()
        &&& forall|i: int| 0 <= i < modules.len() ==> (#[trigger] modules[i]).code.path == order[i]
    }

    /// The state in which the module of the next item has been loaded from `source`, and
    /// nothing of it has been analyzed yet.
    pub open spec fn grown(self, source: UnitView) -> LoadView {
        LoadView {
            resolutions: self.resolutions.push(loaded_module(source, self.stack.last().path)),
            stack: self.stack.drop_last(),
        }
    }

    /// The entrypoints of a module that is loaded for the next item.
    pub open spec fn load_entries(self, source: UnitView, eager: bool) -> Seq<EntryView> {
        entrypoints(
            loaded_module(source, self.stack.last().path).code.source.declarations,
            eager,
        ).push(EntryView::Ident(self.stack.last().ident))
    }
}

/// The state before the root module is analyzed.
pub open spec fn root_load(source: UnitView, path: PathView) -> LoadView {
    LoadView {
        resolutions: ResolutionsView {
            modules: seq![loaded_module(source, path)],
            order: seq![path],
        },
        stack: Seq::empty(),
    }
}

/// The root module alone is in order.
pub proof fn lemma_root_load(source: UnitView, path: PathView)
    ensures
        root_load(source, path).ordered(),
{
    let load = root_load(source, path);
    lemma_position(load.resolutions.modules, path);
    assert(load.resolutions.modules[0].code.path == path);
    assert(load.resolutions.order[0] == path);
}

/// Analyzing a module keeps the modules in order, and all their code.
pub proof fn lemma_analyzed_ordered(load: LoadView, i: int, entries: Seq<EntryView>)
    requires
        load.ordered(),
        0 <= i < load.resolutions.modules.len(),
        load.analyzed(i, entries) is Ok,
    ensures
        load.analyzed(i, entries)->Ok_0.ordered(),
        load.analyzed(i, entries)->Ok_0.resolutions.modules.len()
            == load.resolutions.modules.len(),
        same_code(
            load.resolutions.modules,
            load.analyzed(i, entries)->Ok_0.resolutions.modules,
        ),
{
    let module = load.resolutions.modules[i];
    let analysis = analyze(module.code, module.used, Seq::empty(), entries);
    lemma_with_used(load.resolutions, i, analysis.used);
}

/// Loading a module keeps the modules in order, and puts the new one last.
pub proof fn lemma_grown(load: LoadView, source: UnitView)
    requires
        load.ordered(),
        load.stack.len() > 0,
        load.next_module() is None,
    ensures
        load.grown(source).ordered(),
        load.grown(source).resolutions.modules == load.resolutions.modules.push(
            loaded_module(source, load.stack.last().path),
        ),
        position(load.grown(source).resolutions.modules, load.stack.last().path) == Some(
            load.resolutions.modules.len() as int,
        ),
{
    lemma_push(load.resolutions, loaded_module(source, load.stack.last().path));
}

/// Whether a module is what an exchange answered, loaded.
pub open spec fn is_answer(exchange: Exchange, module: ModuleView) -> bool {
    exchange.answer matches Ok(source) && module.code == loaded_module(source, exchange.path).code
}

/// Whether a module is what the resolver answered when asked for its path, loaded.
pub open spec fn answered_by(exchanges: Seq<Exchange>, module: ModuleView) -> bool {
    exists|x: int| 0 <= x < exchanges.len() && is_answer(#[trigger] exchanges[x], module)
}

/// Whether the modules are the answers of the exchanges, one by one.
pub open spec fn asked_one_by_one(exchanges: Seq<Exchange>, modules: Seq<ModuleView>) -> bool {
    &&& exchanges.len() == modules.len()
    &&& forall|x: int|
        0 <= x < exchanges.len() ==> is_answer(#[trigger] exchanges[x], modules[x])
}

/// Modules that are at the paths of the order are in the order of their loading.
pub proof fn lemma_in_order(resolutions: ResolutionsView)
    requires
        distinct_paths(resolutions.modules),
        resolutions.order.len() == resolutions.modules.len(),
        forall|i: int|
            0 <= i < resolutions.modules.len() ==> (#[trigger] resolutions.modules[i]).code.path
                == resolutions.order[i],
    ensures
        resolutions.in_order() == resolutions.modules,
{
    let modules = resolutions.modules;
    assert forall|i: int| 0 <= i < modules.len() implies #[trigger] resolutions.in_order()[i]
        == modules[i] by {
        assert(modules[i].code.path == resolutions.order[i]);
        lemma_position(modules, modules[i].code.path);
        let j = position(modules, modules[i].code.path)->0;
        if j < i {
            assert(modules[j].code.path != modules[i].code.path);
        } else if i < j {
            assert(modules[i].code.path != modules[j].code.path);
        }
    }
    assert(resolutions.in_order() =~= modules);
}

/// A loading that ends well leaves the modules in order, and the new ones are the answers.
pub proof fn lemma_run_ordered(
    load: LoadView,
    exchanges: Seq<Exchange>,
    eager: bool,
    limit: nat,
    loaded: ResolutionsView,
)
    requires
        load.ordered(),
        run(load, exchanges, eager, limit) == LoadOutcome::Done(loaded),
    ensures
        (LoadView { resolutions: loaded, stack: Seq::empty() }).ordered(),
        same_code(load.resolutions.modules, loaded.modules),
        asked_one_by_one(
            exchanges,
            loaded.modules.skip(load.resolutions.modules.len() as int),
        ),
    decreases limit,
{
    if load.stack.len() == 0 {
        assert(load.stack =~= Seq::empty());
    } else if load.next_module() is Some {
        let next = load.step()->Ok_0;
        lemma_position(load.resolutions.modules, load.stack.last().path);
        lemma_analyzed_ordered(
            load.popped(),
            load.next_module()->0,
            seq![EntryView::Ident(load.stack.last().ident)],
        );
        lemma_run_ordered(next, exchanges, eager, (limit - 1) as nat, loaded);
        assert forall|i: int| 0 <= i < load.resolutions.modules.len() implies (
        #[trigger] loaded.modules[i]).code == load.resolutions.modules[i].code by {
            assert(next.resolutions.modules[i].code == load.resolutions.modules[i].code);
        }
    } else {
        let source = exchanges[0].answer->Ok_0;
        let rest = exchanges.drop_first();
        let next = load.step_into(source, eager)->Ok_0;
        lemma_grown(load, source);
        lemma_analyzed_ordered(
            load.grown(source),
            load.resolutions.modules.len() as int,
            load.load_entries(source, eager),
        );
        lemma_run_ordered(next, rest, eager, (limit - 1) as nat, loaded);
        let grown = load.grown(source).resolutions.modules;
        assert forall|i: int| 0 <= i < grown.len() implies (#[trigger] loaded.modules[i]).code
            == grown[i].code by {
            assert(next.resolutions.modules[i].code == grown[i].code);
        }
        let new_modules = loaded.modules.skip(load.resolutions.modules.len() as int);
        assert forall|x: int| 0 <= x < exchanges.len() implies is_answer(
            #[trigger] exchanges[x],
            new_modules[x],
        ) by {
            if x == 0 {
                let i = load.resolutions.modules.len() as int;
                assert(new_modules[0] == loaded.modules[i]);
                assert(loaded.modules[i].code == grown[i].code);
            } else {
                assert(rest[x - 1] == exchanges[x]);
                assert(new_modules[x] == loaded.modules.skip(grown.len() as int)[x - 1]);
            }
        }
    }
}

/// A loading that ends well leaves the modules in order.
pub proof fn lemma_outcome_ordered(
    source: UnitView,
    path: PathView,
    keep: Option<Seq<IdentView>>,
    exchanges: Seq<Exchange>,
    limit: nat,
    loaded: ResolutionsView,
)
    requires
        load_outcome(source, path, keep, exchanges, limit) == LoadOutcome::Done(loaded),
    ensures
        (LoadView { resolutions: loaded, stack: Seq::empty() }).ordered(),
        loaded.modules[0].code == loaded_module(source, path).code,
        asked_one_by_one(exchanges, loaded.modules.drop_first()),
        forall|i: int|
            0 < i < loaded.modules.len() ==> answered_by(exchanges, #[trigger] loaded.modules[i]),
{
    let first = load_root(source, path, keep)->Ok_0;
    lemma_root_load(source, path);
    lemma_analyzed_ordered(
        root_load(source, path),
        0,
        root_entrypoints(source, path, keep),
    );
    lemma_run_ordered(first, exchanges, keep is None, limit, loaded);
    assert(first.resolutions.modules[0].code == loaded_module(source, path).code);
    assert(loaded.modules[0].code == first.resolutions.modules[0].code);
    assert(loaded.modules.skip(1) =~= loaded.modules.drop_first());
    assert forall|i: int| 0 < i < loaded.modules.len() implies answered_by(
        exchanges,
        #[trigger] loaded.modules[i],
    ) by {
        assert(is_answer(exchanges[i - 1], loaded.modules.drop_first()[i - 1]));
    }
}

/// Each module is loaded once. The modules are in the order of their loading, the root
/// module first, and no two are at the same path. The resolver is asked once for every module
/// but the root, in this order, and for nothing else, and each is what it answered.
pub proof fn law_modules_are_loaded_once(
    source: UnitView,
    path: PathView,
    keep: Option<Seq<IdentView>>,
    exchanges: Seq<Exchange>,
    limit: nat,
    loaded: ResolutionsView,
)
    requires
        load_outcome(source, path, keep, exchanges, limit) == LoadOutcome::Done(loaded),
    ensures
        distinct_paths(loaded.modules),
        loaded.in_order() == loaded.modules,
        loaded.modules.len() > 0,
        loaded.modules[0].code == loaded_module(source, path).code,
        exchanges.len() + 1 == loaded.modules.len(),
        forall|x: int|
            0 <= x < exchanges.len() ==> (#[trigger] exchanges[x]).path
                == loaded.modules[x + 1].code.path && is_answer(
                exchanges[x],
                loaded.modules[x + 1],
            ),
{
    lemma_outcome_ordered(source, path, keep, exchanges, limit, loaded);
    lemma_in_order(loaded);
    assert forall|x: int| 0 <= x < exchanges.len() implies (#[trigger] exchanges[x]).path
        == loaded.modules[x + 1].code.path && is_answer(
        exchanges[x],
        loaded.modules[x + 1],
    ) by {
        assert(is_answer(exchanges[x], loaded.modules.drop_first()[x]));
    }
}

impl ModuleView {
    /// Whether a request for `ident` has been answered: with a used declaration, or with a
    /// public import.
    pub open spec fn answers(self, ident: IdentView) -> bool {
        match self.code.request(ident) {
            Step::Refer(_) => true,
            step => self.code.taken(self.used, Seq::empty(), step),
        }
    }

    /// Whether all that the module declares is used.
    pub open spec fn all_used(self) -> bool {
        forall|n: int|
            0 <= n < self.code.source.declarations.len() ==> (
            #[trigger] self.code.source.declarations[n]).is_used(self.used)
    }
}

/// What the entrypoints of a module contain.
pub proof fn lemma_entrypoints(decls: Seq<DeclView>, eager: bool)
    requires
        decls.len() <= usize::MAX,
    ensures
        forall|n: int|
            0 <= n < decls.len() && (#[trigger] decls[n]).ident() is None && (eager
                || decls[n].kind is ConstAssert) ==> entrypoints(decls, eager).contains(
                EntryView::Decl(n as usize),
            ),
        forall|n: int|
            0 <= n < decls.len() && (#[trigger] decls[n]).ident() is Some && eager
                ==> entrypoints(decls, eager).contains(EntryView::Ident(decls[n].ident()->0)),
    decreases decls.len(),
{
    if decls.len() > 0 {
        let prev = entrypoints(decls.drop_last(), eager);
        let last = decl_entrypoints(
            decls.last(),
            (decls.len() - 1) as usize,
            eager,
        );
        let res = entrypoints(decls, eager);
        assert(res == prev + last);
        lemma_entrypoints(decls.drop_last(), eager);
        assert forall|x: EntryView| prev.contains(x) || last.contains(x) implies
            #[trigger] res.contains(x) by {
            if prev.contains(x) {
                let j = choose|j: int| 0 <= j < prev.len() && prev[j] == x;
                assert(res[j] == x);
            } else {
                let j = choose|j: int| 0 <= j < last.len() && last[j] == x;
                assert(res[prev.len() + j] == x);
            }
        }
        assert forall|n: int|
            0 <= n < decls.len() && (#[trigger] decls[n]).ident() is None && (eager
                || decls[n].kind is ConstAssert) implies res.contains(
            EntryView::Decl(n as usize),
        ) by {
            if n < decls.len() - 1 {
                assert(decls.drop_last()[n] == decls[n]);
                assert(prev.contains(EntryView::Decl(n as usize)));
            } else {
                assert(last[0] == EntryView::Decl(n as usize));
                assert(last.contains(EntryView::Decl(n as usize)));
            }
        }
        assert forall|n: int|
            0 <= n < decls.len() && (#[trigger] decls[n]).ident() is Some && eager implies
            res.contains(EntryView::Ident(decls[n].ident()->0)) by {
            if n < decls.len() - 1 {
                assert(decls.drop_last()[n] == decls[n]);
                assert(prev.contains(EntryView::Ident(decls[n].ident()->0)));
            } else {
                assert(last[0] == EntryView::Ident(decls[n].ident()->0));
                assert(last.contains(EntryView::Ident(decls[n].ident()->0)));
            }
        }
    }
}

impl LoadView {
    /// What holds of the requests while modules are loaded. Every module but the root has
    /// been asked for something that it has. The identifiers to keep are answered in the
    /// root module, and in eager mode everything is used.
    pub open spec fn attentive(self, keep: Option<Seq<IdentView>>) -> bool {
        let modules = self.resolutions.modules;
        &&& self.ordered()
        &&& forall|i: int| 0 <= i < modules.len() ==> (#[trigger] modules[i]).code.source.fits()
        &&& forall|i: int| 0 < i < modules.len() ==> #[trigger] is_wanted(modules[i])
        &&& match keep {
            Some(idents) => forall|k: int|
                0 <= k < idents.len() ==> modules[0].answers(#[trigger] idents[k]),
            None => forall|i: int| 0 <= i < modules.len() ==> (#[trigger] modules[i]).all_used(),
        }
    }
}

/// Whether a module has been asked for something that it has.
pub open spec fn is_wanted(module: ModuleView) -> bool {
    exists|ident: IdentView| #[trigger] module.answers(ident)
}

/// What a module answered it answers when more of it is used.
proof fn lemma_answers_more(module: ModuleView, more: ModuleView)
    requires
        module.code == more.code,
        module.used.subset_of(more.used),
    ensures
        forall|ident: IdentView| #[trigger] module.answers(ident) ==> more.answers(ident),
        is_wanted(module) ==> is_wanted(more),
        module.all_used() ==> more.all_used(),
{
    assert forall|ident: IdentView| #[trigger] module.answers(ident) implies more.answers(
        ident,
    ) by {}
    if is_wanted(module) {
        let ident = choose|ident: IdentView| #[trigger] module.answers(ident);
        assert(more.answers(ident));
    }
    if module.all_used() {
        assert forall|n: int| 0 <= n < more.code.source.declarations.len() implies (
        #[trigger] more.code.source.declarations[n]).is_used(more.used) by {
            assert(module.code.source.declarations[n].is_used(module.used));
        }
    }
}

/// Analyzing a module answers its entrypoints, and uses no less than before.
pub proof fn lemma_analyzed_answers(load: LoadView, i: int, entries: Seq<EntryView>)
    requires
        0 <= i < load.resolutions.modules.len(),
        load.resolutions.modules[i].code.source.fits(),
        load.analyzed(i, entries) is Ok,
    ensures
        load.resolutions.modules[i].used.subset_of(
            load.analyzed(i, entries)->Ok_0.resolutions.modules[i].used,
        ),
        forall|ident: IdentView|
            entries.contains(EntryView::Ident(ident)) ==> #[trigger] load.analyzed(
                i,
                entries,
            )->Ok_0.resolutions.modules[i].answers(ident),
{
    let module = load.resolutions.modules[i];
    let analysis = analyze(module.code, module.used, Seq::empty(), entries);
    let after = load.analyzed(i, entries)->Ok_0;
    lemma_analyze(module.code, module.used, Seq::empty(), entries);
    assert forall|ident: IdentView| entries.contains(EntryView::Ident(ident)) implies
        #[trigger] after.resolutions.modules[i].answers(ident) by {
        let e = choose|e: int| 0 <= e < entries.len() && entries[e] == EntryView::Ident(ident);
        assert(module.code.entry_followed(
            analysis.used,
            analysis.outcome->Ok_0,
            entries[e],
        ));
    }
}

/// A declaration that a module is asked for by its own identifier is used.
proof fn lemma_answers_decl(module: ModuleView, n: int)
    requires
        module.code.source.fits(),
        0 <= n < module.code.source.declarations.len(),
        module.code.source.declarations[n].ident() is Some,
        module.answers(module.code.source.declarations[n].ident()->0),
    ensures
        module.code.source.declarations[n].is_used(module.used),
{
    let code = module.code;
    let ident = code.source.declarations[n].ident()->0;
    lemma_decl_index(code.source.declarations);
    lemma_by_id(code.idents(), ident.id);
}

/// A module that has answered its own entrypoints in eager mode is used altogether.
proof fn lemma_all_used(module: ModuleView, entries: Seq<EntryView>)
    requires
        module.code.source.fits(),
        forall|x: EntryView|
            entrypoints(module.code.source.declarations, true).contains(x)
                ==> #[trigger] entries.contains(x),
        forall|ident: IdentView|
            entries.contains(EntryView::Ident(ident)) ==> #[trigger] module.answers(ident),
    ensures
        module.all_used(),
{
    let decls = module.code.source.declarations;
    lemma_entrypoints(decls, true);
    assert forall|n: int| 0 <= n < decls.len() implies (#[trigger] decls[n]).is_used(
        module.used,
    ) by {
        if decls[n].ident() is Some {
            let ident = decls[n].ident()->0;
            assert(entries.contains(EntryView::Ident(ident)));
            assert(module.answers(ident));
            lemma_answers_decl(module, n);
        }
    }
}

proof fn lemma_root_attentive(source: UnitView, path: PathView, keep: Option<Seq<IdentView>>)
    requires
        source.fits(),
        load_root(source, path, keep) is Ok,
    ensures
        load_root(source, path, keep)->Ok_0.attentive(keep),
{
    let load = root_load(source, path);
    let entries = root_entrypoints(source, path, keep);
    let after = load_root(source, path, keep)->Ok_0;
    let decls = loaded_module(source, path).code.source.declarations;
    let own = entrypoints(decls, keep is None);
    lemma_root_load(source, path);
    assert(load.resolutions.modules[0].code.source.fits());
    lemma_analyzed_ordered(load, 0, entries);
    lemma_analyzed_answers(load, 0, entries);
    let module = after.resolutions.modules[0];
    match keep {
        Some(idents) => {
            assert forall|k: int| 0 <= k < idents.len() implies module.answers(
                #[trigger] idents[k],
            ) by {
                assert(entries[own.len() + k] == EntryView::Ident(idents[k]));
                assert(entries.contains(EntryView::Ident(idents[k])));
            }
        },
        None => {
            assert(entries =~= own);
            lemma_all_used(module, entries);
        },
    }
}

proof fn lemma_step_attentive(load: LoadView, keep: Option<Seq<IdentView>>)
    requires
        load.attentive(keep),
        load.stack.len() > 0,
        load.next_module() is Some,
        load.step() is Ok,
    ensures
        load.step()->Ok_0.attentive(keep),
{
    let modules = load.resolutions.modules;
    let i = load.next_module()->0;
    let entries = seq![EntryView::Ident(load.stack.last().ident)];
    let after = load.step()->Ok_0.resolutions.modules;
    lemma_position(modules, load.stack.last().path);
    lemma_analyzed_ordered(load.popped(), i, entries);
    lemma_analyzed_answers(load.popped(), i, entries);
    assert forall|j: int| 0 <= j < modules.len() implies modules[j].used.subset_of(
        (#[trigger] after[j]).used,
    ) && after[j].code == modules[j].code by {}
    assert forall|j: int| 0 < j < after.len() implies #[trigger] is_wanted(after[j]) by {
        assert(is_wanted(modules[j]));
        lemma_answers_more(modules[j], after[j]);
    }
    lemma_answers_more(modules[0], after[0]);
    assert forall|j: int| 0 <= j < after.len() && modules[j].all_used() implies (
    #[trigger] after[j]).all_used() by {
        lemma_answers_more(modules[j], after[j]);
    }
}

proof fn lemma_step_into_attentive(
    load: LoadView,
    source: UnitView,
    keep: Option<Seq<IdentView>>,
)
    requires
        load.attentive(keep),
        load.stack.len() > 0,
        load.next_module() is None,
        source.fits(),
        load.step_into(source, keep is None) is Ok,
    ensures
        load.step_into(source, keep is None)->Ok_0.attentive(keep),
{
    let eager = keep is None;
    let modules = load.resolutions.modules;
    let i = modules.len() as int;
    let entries = load.load_entries(source, eager);
    let grown = load.grown(source);
    let after = load.step_into(source, eager)->Ok_0.resolutions.modules;
    let own = entrypoints(grown.resolutions.modules[i].code.source.declarations, eager);
    lemma_grown(load, source);
    lemma_analyzed_ordered(grown, i, entries);
    lemma_analyzed_answers(grown, i, entries);
    assert(entries[own.len() as int] == EntryView::Ident(load.stack.last().ident));
    assert(entries.contains(EntryView::Ident(load.stack.last().ident)));
    assert(after[i].answers(load.stack.last().ident));
    assert forall|j: int| 0 <= j < i implies #[trigger] after[j] == modules[j] by {}
    assert forall|j: int| 0 <= j < after.len() implies (
    #[trigger] after[j]).code.source.fits() by {
        if j < i {
            assert(modules[j].code.source.fits());
        }
    }
    assert forall|j: int| 0 < j < after.len() implies #[trigger] is_wanted(after[j]) by {
        if j < i {
            assert(is_wanted(modules[j]));
        }
    }
    if eager {
        assert forall|x: EntryView| own.contains(x) implies #[trigger] entries.contains(x) by {
            let j = choose|j: int| 0 <= j < own.len() && own[j] == x;
            assert(entries[j] == x);
        }
        lemma_all_used(after[i], entries);
    }
}

proof fn lemma_run_attentive(
    load: LoadView,
    exchanges: Seq<Exchange>,
    keep: Option<Seq<IdentView>>,
    limit: nat,
    loaded: ResolutionsView,
)
    requires
        load.attentive(keep),
        fitting_answers(exchanges),
        run(load, exchanges, keep is None, limit) == LoadOutcome::Done(loaded),
    ensures
        (LoadView { resolutions: loaded, stack: Seq::empty() }).attentive(keep),
    decreases limit,
{
    let eager = keep is None;
    if load.stack.len() == 0 {
        assert(load.stack =~= Seq::empty());
    } else if load.next_module() is Some {
        lemma_step_attentive(load, keep);
        lemma_run_attentive(load.step()->Ok_0, exchanges, keep, (limit - 1) as nat, loaded);
    } else {
        let source = exchanges[0].answer->Ok_0;
        let rest = exchanges.drop_first();
        lemma_step_into_attentive(load, source, keep);
        assert forall|x: int| 0 <= x < rest.len() implies ((
        #[trigger] rest[x]).answer matches Ok(source) ==> source.fits()) by {
            assert(rest[x] == exchanges[x + 1]);
        }
        lemma_run_attentive(
            load.step_into(source, eager)->Ok_0,
            rest,
            keep,
            (limit - 1) as nat,
            loaded,
        );
    }
}

/// A loading that ends well has asked the modules for what they have.
pub proof fn lemma_outcome_attentive(
    source: UnitView,
    path: PathView,
    keep: Option<Seq<IdentView>>,
    exchanges: Seq<Exchange>,
    limit: nat,
    loaded: ResolutionsView,
)
    requires
        source.fits(),
        fitting_answers(exchanges),
        load_outcome(source, path, keep, exchanges, limit) == LoadOutcome::Done(loaded),
    ensures
        (LoadView { resolutions: loaded, stack: Seq::empty() }).attentive(keep),
{
    lemma_root_attentive(source, path, keep);
    lemma_run_attentive(load_root(source, path, keep)->Ok_0, exchanges, keep, limit, loaded);
}

/// No module is loaded in vain: one other than the root has been asked for something that
/// it has, a declaration, which is then used, or a public import.
pub proof fn law_loaded_modules_are_asked_for(
    source: UnitView,
    path: PathView,
    keep: Option<Seq<IdentView>>,
    exchanges: Seq<Exchange>,
    limit: nat,
    loaded: ResolutionsView,
    i: int,
)
    requires
        source.fits(),
        fitting_answers(exchanges),
        load_outcome(source, path, keep, exchanges, limit) == LoadOutcome::Done(loaded),
        0 < i < loaded.modules.len(),
    ensures
        exists|ident: IdentView| #[trigger] loaded.modules[i].answers(ident),
{
    lemma_outcome_attentive(source, path, keep, exchanges, limit, loaded);
    assert(is_wanted(loaded.modules[i]));
}

/// What is to be kept is kept: every identifier of `keep` means a declaration of the root
/// module that is used, or a public import of it.
pub proof fn law_kept_identifiers_are_used(
    source: UnitView,
    path: PathView,
    keep: Seq<IdentView>,
    exchanges: Seq<Exchange>,
    limit: nat,
    loaded: ResolutionsView,
    k: int,
)
    requires
        source.fits(),
        fitting_answers(exchanges),
        load_outcome(source, path, Some(keep), exchanges, limit) == LoadOutcome::Done(loaded),
        0 <= k < keep.len(),
    ensures
        loaded.modules[0].answers(keep[k]),
{
    lemma_outcome_attentive(source, path, Some(keep), exchanges, limit, loaded);
}

/// Eager loading uses everything: all that a loaded module declares is used.
pub proof fn law_eager_loading_uses_everything(
    source: UnitView,
    path: PathView,
    exchanges: Seq<Exchange>,
    limit: nat,
    loaded: ResolutionsView,
    i: int,
)
    requires
        source.fits(),
        fitting_answers(exchanges),
        load_outcome(source, path, None, exchanges, limit) == LoadOutcome::Done(loaded),
        0 <= i < loaded.modules.len(),
    ensures
        loaded.modules[i].all_used(),
{
    lemma_outcome_attentive(source, path, None, exchanges, limit, loaded);
}

/// The limit on the number of items only stops a loading that would go on: one that ends
/// within a limit ends in the same way within every higher one.
pub proof fn law_higher_limits_change_nothing(
    source: UnitView,
    path: PathView,
    keep: Option<Seq<IdentView>>,
    exchanges: Seq<Exchange>,
    limit: nat,
    more: nat,
)
    requires
        limit <= more,
        load_outcome(source, path, keep, exchanges, limit) is Done || load_outcome(
            source,
            path,
            keep,
            exchanges,
            limit,
        ) is Failed,
    ensures
        load_outcome(source, path, keep, exchanges, more) == load_outcome(
            source,
            path,
            keep,
            exchanges,
            limit,
        ),
{
    if load_root(source, path, keep) is Ok {
        lemma_more_steps(
            load_root(source, path, keep)->Ok_0,
            exchanges,
            keep is None,
            limit,
            more,
        );
    }
}

proof fn lemma_more_steps(
    load: LoadView,
    exchanges: Seq<Exchange>,
    eager: bool,
    limit: nat,
    more: nat,
)
    requires
        limit <= more,
        run(load, exchanges, eager, limit) is Done || run(
            load,
            exchanges,
            eager,
            limit,
        ) is Failed,
    ensures
        run(load, exchanges, eager, more) == run(load, exchanges, eager, limit),
    decreases limit,
{
    if load.stack.len() > 0 {
        if load.next_module() is Some {
            if load.step() is Ok {
                lemma_more_steps(
                    load.step()->Ok_0,
                    exchanges,
                    eager,
                    (limit - 1) as nat,
                    (more - 1) as nat,
                );
            }
        } else if exchanges.len() > 0 && exchanges[0].path == load.stack.last().path
            && exchanges[0].answer is Ok {
            let source = exchanges[0].answer->Ok_0;
            if load.step_into(source, eager) is Ok {
                lemma_more_steps(
                    load.step_into(source, eager)->Ok_0,
                    exchanges.drop_first(),
                    eager,
                    (limit - 1) as nat,
                    (more - 1) as nat,
                );
            }
        }
    }
}

} // verus!
