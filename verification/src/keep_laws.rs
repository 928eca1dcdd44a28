//! What holds of loadings of the same root module that are to keep more or less.
use crate::error::ResolveErrorView;
use crate::follow_laws::{arrived, forward, lemma_outcome_coherent, reach, sound_answers};
use crate::lazy_laws::{lemma_root_bounded, lemma_step_bounded, lemma_step_into_bounded, Bounds};
use crate::load::{
    load_outcome, load_root, loaded_module, root_entrypoints, run, Exchange, LoadOutcome, LoadView,
};
use crate::load_laws::{
    answered_by, is_answer, lemma_analyzed_ordered, lemma_grown, lemma_outcome_ordered,
    lemma_root_load, root_load,
};
use crate::module::{lemma_decl_index, CodeView, ModuleView};
use crate::resolutions::{lemma_position, lemma_position_paths, position, ResolutionsView};
use crate::resolve_laws::law_retargeting_never_fails;
use crate::retarget::Place;
use crate::syntax::{DeclView, IdentView, PathView, UnitView};
use crate::table::{by_id, lemma_by_id, lemma_by_name};
use crate::usage::{analyze, lemma_unmarked, post_orders, unmarked, EntryView, ExtView, Step};
use crate::usage_laws::{lemma_analyze, lemma_indexed};
use vstd::prelude::*;

verus! {

/// What a resolver answers that always answers the same.
pub type Library = spec_fn(PathView) -> Result<UnitView, ResolveErrorView>;

/// Whether all answers are those of a resolver that always answers the same.
pub open spec fn consistent(exchanges: Seq<Exchange>, library: Library) -> bool {
    forall|x: int|
        0 <= x < exchanges.len() ==> (#[trigger] exchanges[x]).answer == library(
            exchanges[x].path,
        )
}

/// Whether a loading has come to an end, good or bad.
pub open spec fn decided(outcome: LoadOutcome) -> bool {
    outcome is Done || outcome is Failed
}

proof fn lemma_same_run(
    load: LoadView,
    a: Seq<Exchange>,
    m: nat,
    b: Seq<Exchange>,
    n: nat,
    eager: bool,
    library: Library,
)
    requires
        consistent(a, library),
        consistent(b, library),
        decided(run(load, a, eager, m)),
        decided(run(load, b, eager, n)),
    ensures
        run(load, a, eager, m) == run(load, b, eager, n),
    decreases m,
{
    if load.stack.len() > 0 {
        if load.next_module() is Some {
            if load.step() is Ok {
                let next = load.step()->Ok_0;
                lemma_same_run(next, a, (m - 1) as nat, b, (n - 1) as nat, eager, library);
            }
        } else {
            assert(a[0].answer == b[0].answer);
            if a[0].answer is Ok && load.step_into(a[0].answer->Ok_0, eager) is Ok {
                let next = load.step_into(a[0].answer->Ok_0, eager)->Ok_0;
                lemma_rest_consistent(a, library);
                lemma_rest_consistent(b, library);
                lemma_same_run(
                    next,
                    a.drop_first(),
                    (m - 1) as nat,
                    b.drop_first(),
                    (n - 1) as nat,
                    eager,
                    library,
                );
            }
        }
    }
}

proof fn lemma_rest_consistent(exchanges: Seq<Exchange>, library: Library)
    requires
        consistent(exchanges, library),
        exchanges.len() > 0,
    ensures
        consistent(exchanges.drop_first(), library),
{
    let rest = exchanges.drop_first();
    assert forall|x: int| 0 <= x < rest.len() implies (#[trigger] rest[x]).answer == library(
        rest[x].path,
    ) by {
        assert(rest[x] == exchanges[x + 1]);
    }
}

/// With a resolver that always answers the same, a loading always comes to the same end.
pub proof fn law_the_end_is_determined(
    source: UnitView,
    path: PathView,
    keep: Option<Seq<IdentView>>,
    library: Library,
    a: Seq<Exchange>,
    m: nat,
    b: Seq<Exchange>,
    n: nat,
)
    requires
        consistent(a, library),
        consistent(b, library),
        decided(load_outcome(source, path, keep, a, m)),
        decided(load_outcome(source, path, keep, b, n)),
    ensures
        load_outcome(source, path, keep, a, m) == load_outcome(source, path, keep, b, n),
{
    if load_root(source, path, keep) is Ok {
        lemma_same_run(load_root(source, path, keep)->Ok_0, a, m, b, n, keep is None, library);
    }
}

impl ResolutionsView {
    /// The resolutions as a loading that has come to its end.
    pub open spec fn at_rest(self) -> LoadView {
        LoadView { resolutions: self, stack: Seq::empty() }
    }

    /// What is used, and the names that lead to something used.
    pub open spec fn bounds(self) -> Bounds {
        Bounds {
            decls: Set::new(
                |x: (PathView, u64)|
                    position(self.modules, x.0) matches Some(i) && self.modules[i].used.contains(
                        x.1,
                    ),
            ),
            names: Set::new(
                |x: (PathView, IdentView)|
                    self.at_rest().settled(Place { path: x.0, ident: x.1 }),
            ),
        }
    }

    /// Whether `module` is one of the modules, with at least as much used.
    pub open spec fn covers(self, module: ModuleView) -> bool {
        &&& position(self.modules, module.code.path) matches Some(j)
        &&& self.modules[j].code == module.code
        &&& module.used.subset_of(self.modules[j].used)
    }

    /// Whether all modules are among those of `more`, with at least as much used there.
    pub open spec fn within(self, more: ResolutionsView) -> bool {
        forall|i: int| 0 <= i < self.modules.len() ==> more.covers(#[trigger] self.modules[i])
    }
}

/// The position of a module is where it is.
proof fn lemma_own_position(load: LoadView, i: int)
    requires
        load.ordered(),
        0 <= i < load.resolutions.modules.len(),
    ensures
        position(load.resolutions.modules, load.resolutions.modules[i].code.path) == Some(i),
{
    let modules = load.resolutions.modules;
    lemma_position(modules, modules[i].code.path);
    let j = position(modules, modules[i].code.path)->0;
    if j < i {
        assert(modules[j].code.path != modules[i].code.path);
    } else if i < j {
        assert(modules[i].code.path != modules[j].code.path);
    }
}

/// A step that leads to something used or settled stays in the bounds.
proof fn lemma_resolved_step(
    loaded: ResolutionsView,
    keep: Option<Seq<IdentView>>,
    i: int,
    n: int,
)
    requires
        loaded.at_rest().coherent(keep),
        0 <= i < loaded.modules.len(),
        0 <= n < loaded.modules[i].code.source.declarations.len(),
        loaded.modules[i].code.source.declarations[n].is_used(loaded.modules[i].used),
    ensures
        loaded.modules[i].code.types_within(
            loaded.bounds(),
            true,
            post_orders(loaded.modules[i].code.source.declarations[n].types),
        ),
{
    let load = loaded.at_rest();
    let code = loaded.modules[i].code;
    let types = post_orders(code.source.declarations[n].types);
    lemma_own_position(load, i);
    assert(load.module_resolved(i));
    assert(load.decl_resolved(i, n));
    assert forall|k: int| 0 <= k < types.len() implies code.step_within(
        loaded.bounds(),
        true,
        code.reference(#[trigger] types[k]),
    ) by {
        assert(load.resolved(i, code.reference(types[k])));
    }
}

/// The bounds of what has been loaded are closed, and nothing in them fails.
proof fn lemma_bounds_closed(loaded: ResolutionsView, keep: Option<Seq<IdentView>>, i: int)
    requires
        loaded.at_rest().coherent(keep),
        0 <= i < loaded.modules.len(),
    ensures
        loaded.modules[i].code.closed_within(loaded.bounds(), true),
{
    let load = loaded.at_rest();
    let modules = loaded.modules;
    let bounds = loaded.bounds();
    let code = modules[i].code;
    let decls = code.source.declarations;
    lemma_own_position(load, i);
    assert(code.sound());
    lemma_decl_index(decls);
    assert forall|id: u64| #[trigger] bounds.decls.contains((code.path, id)) implies (by_id(
        code.idents(),
        id,
    ) matches Some((_, n)) ==> code.types_within(bounds, true, code.types_of(n))) by {
        lemma_by_id(code.idents(), id);
        if by_id(code.idents(), id) is Some {
            let n = (by_id(code.idents(), id)->0).1 as int;
            assert(decls[n].declares(id));
            lemma_resolved_step(loaded, keep, i, n);
        }
    }
    assert forall|n: int| 0 <= n < decls.len() && (#[trigger] decls[n]).kind is ConstAssert implies
        code.types_within(bounds, true, post_orders(decls[n].types)) by {
        lemma_resolved_step(loaded, keep, i, n);
    }
    assert forall|ident: IdentView| #[trigger] bounds.names.contains((code.path, ident)) implies
        code.step_within(bounds, true, code.request(ident)) by {
        let place = Place { path: code.path, ident };
        let k = lemma_chain(loaded, place);
        lemma_by_id(code.idents(), ident.id);
        lemma_by_name(code.idents(), ident.name);
        if k == 0 {
            assert(arrived(modules, place));
        } else {
            let next = forward(modules, place)->0;
            assert(reach(modules, next, (k - 1) as nat) == reach(modules, place, k));
            assert(load.settled(next));
        }
    }
}

/// How many public imports a settled place is away from a used declaration.
proof fn lemma_chain(loaded: ResolutionsView, place: Place) -> (k: nat)
    requires
        loaded.at_rest().settled(place),
    ensures
        reach(loaded.modules, place, k) is Some,
        arrived(loaded.modules, reach(loaded.modules, place, k)->0),
        position(loaded.modules, place.path) is Some,
        k == chain(loaded, place),
{
    let load = loaded.at_rest();
    let k = choose|k: nat| #[trigger]
        reach(loaded.modules, place, k) is Some && load.ends(reach(loaded.modules, place, k)->0);
    let end = reach(loaded.modules, place, k)->0;
    assert(arrived(loaded.modules, end));
    chain(loaded, place)
}

/// How many public imports a settled place is away from a used declaration.
spec fn chain(loaded: ResolutionsView, place: Place) -> nat {
    choose|k: nat| #[trigger]
        reach(loaded.modules, place, k) is Some && arrived(
            loaded.modules,
            reach(loaded.modules, place, k)->0,
        )
}

/// There is only one way to a used declaration.
proof fn lemma_one_chain(modules: Seq<ModuleView>, place: Place, k: nat, l: nat)
    requires
        reach(modules, place, k) is Some,
        arrived(modules, reach(modules, place, k)->0),
        reach(modules, place, l) is Some,
        arrived(modules, reach(modules, place, l)->0),
    ensures
        k == l,
    decreases k,
{
    if k > 0 && l > 0 {
        lemma_one_chain(modules, forward(modules, place)->0, (k - 1) as nat, (l - 1) as nat);
    } else {
        assert(arrived(modules, place) ==> forward(modules, place) is None);
    }
}

/// Every import that is followed brings a settled place closer to a used declaration.
proof fn lemma_chain_next(loaded: ResolutionsView, place: Place, next: Place)
    requires
        loaded.at_rest().settled(place),
        forward(loaded.modules, place) == Some(next),
    ensures
        loaded.at_rest().settled(next),
        chain(loaded, next) + 1 == chain(loaded, place),
{
    let modules = loaded.modules;
    let k = lemma_chain(loaded, place);
    if k == 0 {
        assert(arrived(modules, place));
    }
    let l = (k - 1) as nat;
    assert(reach(modules, next, l) == reach(modules, place, k));
    assert(loaded.at_rest().ends(reach(modules, next, l)->0));
    let m = lemma_chain(loaded, next);
    lemma_one_chain(modules, next, l, m);
}

/// How far the items that wait to be resolved are away from used declarations.
spec fn weight(loaded: ResolutionsView, stack: Seq<ExtView>) -> nat
    decreases stack.len(),
{
    if stack.len() == 0 {
        0
    } else {
        weight(loaded, stack.drop_last()) + 1 + chain(
            loaded,
            Place { path: stack.last().path, ident: stack.last().ident },
        )
    }
}

/// How many declarations of the modules are not used yet.
spec fn all_unmarked(modules: Seq<ModuleView>) -> nat
    decreases modules.len(),
{
    if modules.len() == 0 {
        0
    } else {
        all_unmarked(modules.drop_last()) + unmarked(
            modules.last().code.source.declarations,
            modules.last().used,
        )
    }
}

/// How many of the modules of `all` are not among `some`.
spec fn missing(all: Seq<ModuleView>, some: Seq<ModuleView>) -> nat
    decreases all.len(),
{
    if all.len() == 0 {
        0
    } else {
        missing(all.drop_last(), some) + if position(some, all.last().code.path) is None {
            1nat
        } else {
            0nat
        }
    }
}

proof fn lemma_unmarked_subset(decls: Seq<DeclView>, used: Set<u64>, more: Set<u64>)
    requires
        used.subset_of(more),
    ensures
        unmarked(decls, more) <= unmarked(decls, used),
    decreases decls.len(),
{
    if decls.len() > 0 {
        lemma_unmarked_subset(decls.drop_last(), used, more);
    }
}

proof fn lemma_all_unmarked(a: Seq<ModuleView>, b: Seq<ModuleView>, i: int)
    requires
        a.len() == b.len(),
        0 <= i < a.len(),
        forall|j: int| 0 <= j < a.len() && j != i ==> #[trigger] a[j] == b[j],
    ensures
        all_unmarked(b) + unmarked(a[i].code.source.declarations, a[i].used) == all_unmarked(a)
            + unmarked(b[i].code.source.declarations, b[i].used),
    decreases a.len(),
{
    if i == a.len() - 1 {
        assert(a.drop_last() =~= b.drop_last());
    } else {
        assert(a[a.len() - 1] == b[a.len() - 1]);
        assert forall|j: int| 0 <= j < a.drop_last().len() && j != i implies
            #[trigger] a.drop_last()[j] == b.drop_last()[j] by {
            assert(a[j] == b[j]);
        }
        lemma_all_unmarked(a.drop_last(), b.drop_last(), i);
    }
}

proof fn lemma_missing_same(all: Seq<ModuleView>, a: Seq<ModuleView>, b: Seq<ModuleView>)
    requires
        forall|path: PathView|
            position(a, path) is Some ==> #[trigger] position(b, path) is Some,
    ensures
        missing(all, b) <= missing(all, a),
    decreases all.len(),
{
    if all.len() > 0 {
        lemma_missing_same(all.drop_last(), a, b);
    }
}

proof fn lemma_missing_less(
    all: Seq<ModuleView>,
    a: Seq<ModuleView>,
    b: Seq<ModuleView>,
    j: int,
)
    requires
        forall|path: PathView|
            position(a, path) is Some ==> #[trigger] position(b, path) is Some,
        0 <= j < all.len(),
        position(a, all[j].code.path) is None,
        position(b, all[j].code.path) is Some,
    ensures
        missing(all, b) < missing(all, a),
    decreases all.len(),
{
    if j == all.len() - 1 {
        lemma_missing_same(all.drop_last(), a, b);
    } else {
        assert(all.drop_last()[j] == all[j]);
        lemma_missing_less(all.drop_last(), a, b, j);
    }
}

/// Whether a loading has loaded and used nothing that `loaded` has not, and what waits leads
/// to something used there.
spec fn inside(load: LoadView, loaded: ResolutionsView) -> bool {
    &&& load.ordered()
    &&& load.resolutions.within(loaded)
    &&& load.bounded(loaded.bounds())
    &&& load.resolutions.modules[0].code == loaded.modules[0].code
}

/// Whether the resolver always answers with the modules that are loaded.
spec fn provides(library: Library, loaded: ResolutionsView) -> bool {
    forall|j: int|
        0 < j < loaded.modules.len() ==> provides_module(library, #[trigger] loaded.modules[j])
}

/// Whether the resolver always answers with a module, whose identifiers are used as their
/// identity demands.
spec fn provides_module(library: Library, module: ModuleView) -> bool {
    &&& library(module.code.path) matches Ok(source)
    &&& source.sound(module.code.path)
    &&& module.code == loaded_module(source, module.code.path).code
}

/// A module whose used declarations are in the bounds has no more used than the bounds.
proof fn lemma_covers(
    loaded: ResolutionsView,
    keep: Option<Seq<IdentView>>,
    module: ModuleView,
    j: int,
)
    requires
        loaded.at_rest().coherent(keep),
        0 <= j < loaded.modules.len(),
        loaded.modules[j].code == module.code,
        loaded.bounds().hold_used(module.code.path, module.used),
    ensures
        loaded.covers(module),
{
    lemma_own_position(loaded.at_rest(), j);
    assert forall|id: u64| #[trigger] module.used.contains(id) implies
        loaded.modules[j].used.contains(id) by {
        assert(loaded.bounds().decls.contains((module.code.path, id)));
    }
}

/// A step in a module that is loaded already stays inside, and there is less to do.
proof fn lemma_step_inside(
    load: LoadView,
    loaded: ResolutionsView,
    keep: Option<Seq<IdentView>>,
)
    requires
        loaded.at_rest().coherent(keep),
        inside(load, loaded),
        load.stack.len() > 0,
        load.next_module() is Some,
    ensures
        load.step() is Ok,
        inside(load.step()->Ok_0, loaded),
        missing(loaded.modules, load.step()->Ok_0.resolutions.modules) <= missing(
            loaded.modules,
            load.resolutions.modules,
        ),
        all_unmarked(load.step()->Ok_0.resolutions.modules) < all_unmarked(
            load.resolutions.modules,
        ) || (all_unmarked(load.step()->Ok_0.resolutions.modules) == all_unmarked(
            load.resolutions.modules,
        ) && weight(loaded, load.step()->Ok_0.stack) < weight(loaded, load.stack)),
{
    let modules = load.resolutions.modules;
    let bounds = loaded.bounds();
    let item = load.stack.last();
    let i = load.next_module()->0;
    let entries = seq![EntryView::Ident(item.ident)];
    lemma_position(modules, item.path);
    let module = modules[i];
    let code = module.code;
    assert(loaded.covers(module));
    let j = position(loaded.modules, code.path)->0;
    lemma_position(loaded.modules, code.path);
    assert(loaded.modules[j].code.sound());
    lemma_bounds_closed(loaded, keep, j);
    lemma_step_bounded(load, bounds, true);
    let next = load.step()->Ok_0;
    let after = next.resolutions.modules;
    lemma_analyzed_ordered(load.popped(), i, entries);
    assert forall|x: int| 0 <= x < after.len() implies loaded.covers(#[trigger] after[x]) by {
        assert(loaded.covers(modules[x]));
        assert(after[x].code == modules[x].code);
        assert(bounds.hold_used(after[x].code.path, after[x].used));
        let y = position(loaded.modules, after[x].code.path)->0;
        lemma_position(loaded.modules, after[x].code.path);
        lemma_covers(loaded, keep, after[x], y);
    }
    assert(inside(next, loaded));
    assert forall|path: PathView| position(modules, path) is Some implies #[trigger] position(
        after,
        path,
    ) is Some by {
        assert forall|x: int| 0 <= x < modules.len() implies (
        #[trigger] modules[x]).code.path == after[x].code.path by {
            assert(after[x].code == modules[x].code);
        }
        lemma_position_paths(modules, after, path);
    }
    lemma_missing_same(loaded.modules, modules, after);
    // what is left to do
    assert(load.stack[load.stack.len() - 1] == item);
    assert(bounds.names.contains((item.path, item.ident)));
    let place = Place { path: item.path, ident: item.ident };
    let analysis = analyze(code, module.used, Seq::empty(), entries);
    let items = analysis.outcome->Ok_0;
    lemma_analyze(code, module.used, Seq::empty(), entries);
    lemma_indexed(code);
    assert(code.indexed(code.request(item.ident)));
    assert(code.entry_followed(analysis.used, items, entries[0]));
    assert forall|x: int| 0 <= x < modules.len() && x != i implies #[trigger] modules[x]
        == after[x] by {}
    lemma_all_unmarked(modules, after, i);
    lemma_unmarked_subset(code.source.declarations, module.used, analysis.used);
    assert(entries.drop_first() =~= Seq::empty());
    assert(analyze(code, analysis.used, items, entries.drop_first()).used == analysis.used);
    match code.request(item.ident) {
        Step::Enter(n) => {
            if code.fresh(module.used, n) {
                let decl = code.source.declarations[n as int];
                let id = decl.ident()->0.id;
                assert(decl.declares(id));
                lemma_unmarked(code.source.declarations, module.used, id);
                lemma_unmarked_subset(
                    code.source.declarations,
                    module.used.insert(id),
                    analysis.used,
                );
            } else {
                assert(analysis.used == module.used && items =~= Seq::empty()) by {
                    lemma_single(code, module.used, item.ident);
                }
                assert(next.stack =~= load.stack.drop_last());
            }
        },
        Step::Refer(found) => {
            lemma_single(code, module.used, item.ident);
            let further = Place { path: found.path, ident: found.ident };
            assert(items =~= seq![found]);
            assert(next.stack =~= load.stack.drop_last().push(found));
            assert(next.stack.drop_last() =~= load.stack.drop_last());
            assert(forward(loaded.modules, place) == Some(further));
            lemma_chain_next(loaded, place, further);
        },
        _ => {},
    }
}

/// What the analysis of a single entrypoint does that enters nothing.
proof fn lemma_single(code: CodeView, used: Set<u64>, ident: IdentView)
    ensures
        ({
            let entries = seq![EntryView::Ident(ident)];
            let analysis = analyze(code, used, Seq::empty(), entries);
            match code.request(ident) {
                Step::Enter(n) => !code.fresh(used, n) ==> analysis.used == used && (
                analysis.outcome matches Ok(items) && items.len() == 0),
                Step::Refer(item) => analysis.used == used && (analysis.outcome matches Ok(items)
                    && items == seq![item]),
                _ => true,
            }
        }),
{
    let entries = seq![EntryView::Ident(ident)];
    assert(entries.drop_first() =~= Seq::empty());
    reveal_with_fuel(analyze, 2);
    if code.request(ident) is Refer {
        assert(Seq::<ExtView>::empty().push(code.request(ident)->Refer_0)
            =~= seq![code.request(ident)->Refer_0]);
    }
}

/// A step in a module that is loaded for it stays inside, and fewer modules are missing.
proof fn lemma_step_into_inside(
    load: LoadView,
    loaded: ResolutionsView,
    keep: Option<Seq<IdentView>>,
    library: Library,
)
    requires
        loaded.at_rest().coherent(keep),
        provides(library, loaded),
        inside(load, loaded),
        load.stack.len() > 0,
        load.next_module() is None,
    ensures
        library(load.stack.last().path) is Ok,
        library(load.stack.last().path)->Ok_0.sound(load.stack.last().path),
        load.step_into(library(load.stack.last().path)->Ok_0, false) is Ok,
        inside(load.step_into(library(load.stack.last().path)->Ok_0, false)->Ok_0, loaded),
        missing(
            loaded.modules,
            load.step_into(
                library(load.stack.last().path)->Ok_0,
                false,
            )->Ok_0.resolutions.modules,
        ) < missing(loaded.modules, load.resolutions.modules),
{
    let modules = load.resolutions.modules;
    let bounds = loaded.bounds();
    let item = load.stack.last();
    let place = Place { path: item.path, ident: item.ident };
    let i = modules.len() as int;
    assert(load.stack[load.stack.len() - 1] == item);
    assert(bounds.names.contains((item.path, item.ident)));
    let k = lemma_chain(loaded, place);
    let j = position(loaded.modules, item.path)->0;
    lemma_position(loaded.modules, item.path);
    lemma_position(modules, item.path);
    if j == 0 {
        assert(modules[0].code.path == item.path);
    }
    assert(provides_module(library, loaded.modules[j]));
    let source = library(item.path)->Ok_0;
    assert(loaded.modules[j].code.sound());
    lemma_bounds_closed(loaded, keep, j);
    lemma_step_into_bounded(load, source, bounds, true);
    let grown = load.grown(source);
    let next = load.step_into(source, false)->Ok_0;
    let after = next.resolutions.modules;
    lemma_grown(load, source);
    lemma_analyzed_ordered(grown, i, load.load_entries(source, false));
    assert forall|x: int| 0 <= x < after.len() implies loaded.covers(#[trigger] after[x]) by {
        assert(after[x].code == grown.resolutions.modules[x].code);
        assert(bounds.hold_used(after[x].code.path, after[x].used));
        if x < i {
            assert(loaded.covers(modules[x]));
            let y = position(loaded.modules, after[x].code.path)->0;
            lemma_position(loaded.modules, after[x].code.path);
            lemma_covers(loaded, keep, after[x], y);
        } else {
            lemma_covers(loaded, keep, after[x], j);
        }
    }
    assert(after[0].code == grown.resolutions.modules[0].code);
    assert forall|path: PathView| position(modules, path) is Some implies #[trigger] position(
        after,
        path,
    ) is Some by {
        assert(grown.resolutions.modules.drop_last() =~= modules);
        assert(position(grown.resolutions.modules, path) is Some);
        lemma_same_positions(grown.resolutions.modules, after, path);
    }
    lemma_same_positions(grown.resolutions.modules, after, item.path);
    lemma_missing_less(loaded.modules, modules, after, j);
}

proof fn lemma_same_positions(a: Seq<ModuleView>, b: Seq<ModuleView>, path: PathView)
    requires
        a.len() == b.len(),
        forall|x: int| 0 <= x < a.len() ==> (#[trigger] b[x]).code == a[x].code,
    ensures
        position(a, path) == position(b, path),
{
    assert forall|x: int| 0 <= x < a.len() implies (#[trigger] a[x]).code.path
        == b[x].code.path by {
        assert(b[x].code == a[x].code);
    }
    lemma_position_paths(a, b, path);
}

/// A lazy loading that is inside comes to a good end.
proof fn lemma_run_inside(
    load: LoadView,
    loaded: ResolutionsView,
    keep: Option<Seq<IdentView>>,
    library: Library,
) -> (res: (Seq<Exchange>, nat, ResolutionsView))
    requires
        loaded.at_rest().coherent(keep),
        provides(library, loaded),
        inside(load, loaded),
    ensures
        consistent(res.0, library),
        sound_answers(res.0),
        run(load, res.0, false, res.1) == LoadOutcome::Done(res.2),
        res.2.within(loaded),
    decreases
            missing(loaded.modules, load.resolutions.modules),
            all_unmarked(load.resolutions.modules),
            weight(loaded, load.stack),
{
    if load.stack.len() == 0 {
        (Seq::empty(), 0, load.resolutions)
    } else if load.next_module() is Some {
        lemma_step_inside(load, loaded, keep);
        let (exchanges, limit, res) = lemma_run_inside(
            load.step()->Ok_0,
            loaded,
            keep,
            library,
        );
        (exchanges, limit + 1, res)
    } else {
        lemma_step_into_inside(load, loaded, keep, library);
        let path = load.stack.last().path;
        let source = library(path)->Ok_0;
        let (rest, limit, res) = lemma_run_inside(
            load.step_into(source, false)->Ok_0,
            loaded,
            keep,
            library,
        );
        let first = Exchange { path, answer: library(path) };
        let exchanges = seq![first] + rest;
        assert(exchanges.drop_first() =~= rest);
        assert forall|x: int| 0 <= x < exchanges.len() implies (
        #[trigger] exchanges[x]).answer == library(exchanges[x].path) by {
            if x > 0 {
                assert(exchanges[x] == rest[x - 1]);
            }
        }
        assert forall|x: int| 0 <= x < exchanges.len() implies ((
        #[trigger] exchanges[x]).answer matches Ok(source) ==> source.sound(
            exchanges[x].path,
        )) by {
            if x > 0 {
                assert(exchanges[x] == rest[x - 1]);
            }
        }
        (exchanges, limit + 1, res)
    }
}

/// Whether a lazy loading of the root module comes to a good end, with a resolver that
/// always answers the same. What it has loaded then can be retargeted, and is within `more`.
pub open spec fn succeeds_within(
    source: UnitView,
    path: PathView,
    keep: Seq<IdentView>,
    library: Library,
    more: ResolutionsView,
) -> bool {
    &&& exists|exchanges: Seq<Exchange>, limit: nat|
        consistent(exchanges, library) && #[trigger] load_outcome(
            source,
            path,
            Some(keep),
            exchanges,
            limit,
        ) is Done
    &&& forall|exchanges: Seq<Exchange>, limit: nat|
        consistent(exchanges, library) && decided(
            #[trigger] load_outcome(source, path, Some(keep), exchanges, limit),
        ) ==> (load_outcome(source, path, Some(keep), exchanges, limit) matches LoadOutcome::Done(
            loaded,
        ) && loaded.within(more) && loaded.retargeted() is Ok)
}

/// A lazy loading whose kept names are settled in another loading stays within it.
proof fn lemma_succeeds_within(
    source: UnitView,
    path: PathView,
    keep: Seq<IdentView>,
    library: Library,
    other: Option<Seq<IdentView>>,
    exchanges: Seq<Exchange>,
    limit: nat,
    more: ResolutionsView,
)
    requires
        source.sound(path),
        sound_answers(exchanges),
        consistent(exchanges, library),
        load_outcome(source, path, other, exchanges, limit) == LoadOutcome::Done(more),
        forall|k: int|
            0 <= k < keep.len() ==> more.at_rest().settled(
                Place { path, ident: #[trigger] keep[k] },
            ),
    ensures
        succeeds_within(source, path, keep, library, more),
{
    lemma_outcome_coherent(source, path, other, exchanges, limit, more);
    lemma_outcome_ordered(source, path, other, exchanges, limit, more);
    assert forall|j: int| 0 < j < more.modules.len() implies provides_module(
        library,
        #[trigger] more.modules[j],
    ) by {
        assert(answered_by(exchanges, more.modules[j]));
        let x = choose|x: int|
            0 <= x < exchanges.len() && is_answer(#[trigger] exchanges[x], more.modules[j]);
        assert(exchanges[x].answer == library(exchanges[x].path));
    }
    let bounds = more.bounds();
    let load = root_load(source, path);
    let entries = root_entrypoints(source, path, Some(keep));
    lemma_bounds_closed(more, other, 0);
    assert forall|k: int| 0 <= k < keep.len() implies bounds.names.contains(
        (path, #[trigger] keep[k]),
    ) by {}
    lemma_root_bounded(source, path, keep, bounds, true);
    let first = load_root(source, path, Some(keep))->Ok_0;
    lemma_root_load(source, path);
    lemma_analyzed_ordered(load, 0, entries);
    let module = first.resolutions.modules[0];
    assert(module.code == load.resolutions.modules[0].code);
    assert(bounds.hold_used(module.code.path, module.used));
    lemma_covers(more, other, module, 0);
    let (found, enough, end) = lemma_run_inside(first, more, other, library);
    assert(load_outcome(source, path, Some(keep), found, enough) == LoadOutcome::Done(end));
    law_retargeting_never_fails(source, path, Some(keep), found, enough, end);
    assert forall|e: Seq<Exchange>, l: nat|
        consistent(e, library) && decided(
            #[trigger] load_outcome(source, path, Some(keep), e, l),
        ) implies (load_outcome(source, path, Some(keep), e, l) matches LoadOutcome::Done(loaded)
        && loaded.within(more) && loaded.retargeted() is Ok) by {
        law_the_end_is_determined(
            source,
            path,
            Some(keep),
            library,
            e,
            l,
            found,
            enough,
        );
    }
}

/// In an eager loading, a name that means a declaration leads to something used.
proof fn lemma_declared_settled(eager: ResolutionsView, ident: IdentView)
    requires
        eager.at_rest().ordered(),
        eager.modules[0].code.source.fits(),
        eager.modules[0].all_used(),
        eager.modules[0].code.find_decl(ident) is Some,
    ensures
        eager.at_rest().settled(Place { path: eager.modules[0].code.path, ident }),
{
    let module = eager.modules[0];
    let code = module.code;
    let place = Place { path: code.path, ident };
    lemma_own_position(eager.at_rest(), 0);
    lemma_decl_index(code.source.declarations);
    lemma_by_id(code.idents(), ident.id);
    lemma_by_name(code.idents(), ident.name);
    let (decl, n) = code.find_decl(ident)->0;
    assert(code.source.declarations[n as int].declares(decl.id));
    assert(code.source.declarations[n as int].is_used(module.used));
    assert(eager.at_rest().ends(place));
    assert(reach(eager.modules, place, 0) == Some(place));
}

/// Where eager loading succeeds, lazy loading succeeds as well, and stays within it: every
/// module it loads is loaded eagerly too, and all that is used in it is used there too. This
/// is for a resolver that always answers the same, and for kept identifiers that mean
/// declarations of the root module.
pub proof fn law_lazy_loading_stays_within_eager_loading(
    source: UnitView,
    path: PathView,
    keep: Seq<IdentView>,
    library: Library,
    exchanges: Seq<Exchange>,
    limit: nat,
    eager: ResolutionsView,
)
    requires
        source.sound(path),
        sound_answers(exchanges),
        consistent(exchanges, library),
        load_outcome(source, path, None, exchanges, limit) == LoadOutcome::Done(eager),
        forall|k: int|
            0 <= k < keep.len() ==> loaded_module(source, path).code.find_decl(
                #[trigger] keep[k],
            ) is Some,
    ensures
        succeeds_within(source, path, keep, library, eager),
{
    lemma_outcome_coherent(source, path, None, exchanges, limit, eager);
    lemma_outcome_ordered(source, path, None, exchanges, limit, eager);
    assert(eager.modules[0].code.sound());
    assert(eager.modules[0].all_used());
    assert forall|k: int| 0 <= k < keep.len() implies eager.at_rest().settled(
        Place { path, ident: #[trigger] keep[k] },
    ) by {
        lemma_declared_settled(eager, keep[k]);
    }
    lemma_succeeds_within(source, path, keep, library, None, exchanges, limit, eager);
}

/// Lazy loading grows with what is to be kept: where it succeeds with more identifiers to
/// keep, it succeeds with fewer, and loads and uses no more then.
pub proof fn law_lazy_loading_grows_with_what_is_kept(
    source: UnitView,
    path: PathView,
    keep: Seq<IdentView>,
    more: Seq<IdentView>,
    library: Library,
    exchanges: Seq<Exchange>,
    limit: nat,
    loaded: ResolutionsView,
)
    requires
        source.sound(path),
        sound_answers(exchanges),
        consistent(exchanges, library),
        load_outcome(source, path, Some(more), exchanges, limit) == LoadOutcome::Done(loaded),
        forall|k: int| 0 <= k < keep.len() ==> more.contains(#[trigger] keep[k]),
    ensures
        succeeds_within(source, path, keep, library, loaded),
{
    lemma_outcome_coherent(source, path, Some(more), exchanges, limit, loaded);
    lemma_outcome_ordered(source, path, Some(more), exchanges, limit, loaded);
    assert forall|k: int| 0 <= k < keep.len() implies loaded.at_rest().settled(
        Place { path, ident: #[trigger] keep[k] },
    ) by {
        assert(more.contains(keep[k]));
        let m = choose|m: int| 0 <= m < more.len() && more[m] == keep[k];
        assert(loaded.at_rest().settled(
            Place { path: loaded.modules[0].code.path, ident: more[m] },
        ));
    }
    lemma_succeeds_within(source, path, keep, library, Some(more), exchanges, limit, loaded);
}

} // verus!
