//! Loading modules: starting at the root module, every module that is used is loaded.
use crate::error::{
    Cause, CauseView, Error, ErrorView, ImportError, ImportErrorView, LocationView, ResolveError,
    ResolveErrorView,
};
use crate::imports::{flatten_imports, import_table};
use crate::link::{lemma_linked_index, linked_decls, retarget_idents};
use crate::load_laws::{asked_one_by_one, is_answer, lemma_outcome_ordered};
use crate::module::{CodeView, Module, ModuleView};
use crate::resolutions::{
    lemma_position, lemma_position_paths, lemma_push, position, Resolutions, ResolutionsView,
};
use crate::syntax::{
    DeclView, Ident, IdentView, ModulePath, PathView, TranslationUnit, UnitView,
};
use crate::usage::{
    analyze, entrypoints, module_entrypoints, used_idents, EntryView, Entrypoint, ExtItem, ExtView,
};
use crate::views::{group_views, opt_view, views};
use vstd::prelude::*;

verus! {

broadcast use group_views;

/// Where modules come from. What a resolver answers is up to whoever implements it, and
/// need not be the same twice.
pub trait Resolver {
    /// The source of the module at `path`.
    fn resolve_module(&self, path: &ModulePath) -> (res: Result<TranslationUnit, ResolveError>);

    /// The name under which the module at `path` is shown to a reader.
    fn display_name(&self, path: &ModulePath) -> (res: Option<String>);
}

/// A module as it is when it has just been loaded from `source`: its imports are indexed,
/// its identifiers are linked, and nothing of it is used.
pub open spec fn loaded_module(source: UnitView, path: PathView) -> ModuleView {
    let imports = import_table(source.imports, path);
    ModuleView {
        code: CodeView {
            source: UnitView {
                imports: source.imports,
                directives: source.directives,
                declarations: linked_decls(source.declarations, imports),
            },
            path,
            imports,
        },
        used: Set::empty(),
    }
}

/// Registers a new module: indexes its declarations and imports, links its identifiers.
/// The result is the position of the module.
pub fn init_module(source: TranslationUnit, path: &ModulePath, resolutions: &mut Resolutions) -> (res:
    usize)
    requires
        old(resolutions).wf(),
    ensures
        final(resolutions).wf(),
        final(resolutions)@ == old(resolutions)@.push(loaded_module(source@, path@)),
        res < final(resolutions).modules@.len(),
        position(final(resolutions)@.modules, path@) == Some(res as int),
{
    let mut module = Module::new(source, path.clone());
    let ghost decls = module@.code.source.declarations;
    module.imports = flatten_imports(&module.source.imports, path);
    retarget_idents(&mut module.source.global_declarations, &module.idents, &module.imports);
    proof {
        lemma_linked_index(decls, module@.code.source.declarations);
    }
    resolutions.push_module(module)
}

/// The state of a loading: what is loaded, and the items that are still to be resolved,
/// the next one last.
pub ghost struct LoadView {
    pub resolutions: ResolutionsView,
    pub stack: Seq<ExtView>,
}

impl ResolutionsView {
    /// The resolutions with another set of used identifiers for the module at position `i`.
    pub open spec fn with_used(self, i: int, used: Set<u64>) -> ResolutionsView {
        ResolutionsView {
            modules: self.modules.update(
                i,
                ModuleView { code: self.modules[i].code, used },
            ),
            order: self.order,
        }
    }
}

impl LoadView {
    /// The state after the module at position `i` is analyzed from `entries`: the items
    /// that it refers to are resolved next, in the order in which they were encountered.
    pub open spec fn analyzed(self, i: int, entries: Seq<EntryView>) -> Result<
        LoadView,
        ImportErrorView,
    > {
        let module = self.resolutions.modules[i];
        let analysis = analyze(module.code, module.used, Seq::empty(), entries);
        match analysis.outcome {
            Ok(items) => Ok(
                LoadView {
                    resolutions: self.resolutions.with_used(i, analysis.used),
                    stack: self.stack + items.reverse(),
                },
            ),
            Err(e) => Err(e),
        }
    }

    /// The state without the item that is resolved next.
    pub open spec fn popped(self) -> LoadView {
        LoadView { resolutions: self.resolutions, stack: self.stack.drop_last() }
    }

    /// The position of the module of the item that is resolved next, if it is loaded.
    pub open spec fn next_module(self) -> Option<int> {
        position(self.resolutions.modules, self.stack.last().path)
    }

    /// The state after the next item is resolved in a module that is loaded already.
    pub open spec fn step(self) -> Result<LoadView, ImportErrorView> {
        self.popped().analyzed(
            self.next_module()->0,
            seq![EntryView::Ident(self.stack.last().ident)],
        )
    }

    /// The state after the next item is resolved in a module that is loaded from `source`:
    /// the module has its own entrypoints, analyzed before the item that caused the load.
    pub open spec fn step_into(self, source: UnitView, eager: bool) -> Result<
        LoadView,
        ImportErrorView,
    > {
        let module = loaded_module(source, self.stack.last().path);
        let grown = LoadView {
            resolutions: self.resolutions.push(module),
            stack: self.stack.drop_last(),
        };
        grown.analyzed(
            position(grown.resolutions.modules, module.code.path)->0,
            entrypoints(module.code.source.declarations, eager).push(
                EntryView::Ident(self.stack.last().ident),
            ),
        )
    }
}

/// One question to a resolver, and its answer.
pub ghost struct Exchange {
    pub path: PathView,
    pub answer: Result<UnitView, ResolveErrorView>,
}

/// How a loading ends.
pub ghost enum LoadOutcome {
    /// Every used item is resolved.
    Done(ResolutionsView),
    /// There is an error, to be blamed on the module at this path.
    Failed(ErrorView, PathView),
    /// The number of items that may be resolved is used up.
    StepLimit,
    /// The exchanges at hand are not those of the loading: the one that comes next is not
    /// among them, or some are left over.
    Mismatch,
}

/// The end of a loading, if no exchange is left over.
pub open spec fn ends_with(outcome: LoadOutcome, rest: Seq<Exchange>) -> LoadOutcome {
    if rest.len() == 0 {
        outcome
    } else {
        LoadOutcome::Mismatch
    }
}

/// How a loading ends that asks the resolver what is asked in `exchanges`, this and nothing
/// else, in this order, and gets these answers. No more than `limit` items are resolved.
///
/// The answer of a resolver that fails is blamed on the module that refers to the item, an
/// item that does not exist on the module that should have it.
pub open spec fn run(load: LoadView, exchanges: Seq<Exchange>, eager: bool, limit: nat) -> LoadOutcome
    decreases limit,
{
    if load.stack.len() == 0 {
        ends_with(LoadOutcome::Done(load.resolutions), exchanges)
    } else if limit == 0 {
        ends_with(LoadOutcome::StepLimit, exchanges)
    } else {
        let item = load.stack.last();
        if load.next_module() is Some {
            match load.step() {
                Ok(next) => run(next, exchanges, eager, (limit - 1) as nat),
                Err(e) => ends_with(
                    LoadOutcome::Failed(ErrorView::import(e), item.path),
                    exchanges,
                ),
            }
        } else if exchanges.len() == 0 || exchanges[0].path != item.path {
            LoadOutcome::Mismatch
        } else {
            let rest = exchanges.drop_first();
            match exchanges[0].answer {
                Ok(source) => match load.step_into(source, eager) {
                    Ok(next) => run(next, rest, eager, (limit - 1) as nat),
                    Err(e) => ends_with(
                        LoadOutcome::Failed(ErrorView::import(e), item.path),
                        rest,
                    ),
                },
                Err(e) => ends_with(LoadOutcome::Failed(ErrorView::resolve(e), item.from), rest),
            }
        }
    }
}

/// The entrypoints of the root module: its own, then the identifiers to keep.
pub open spec fn root_entrypoints(source: UnitView, path: PathView, keep: Option<Seq<IdentView>>) -> Seq<
    EntryView,
> {
    entrypoints(loaded_module(source, path).code.source.declarations, keep is None) + match keep {
        Some(idents) => idents.map_values(|ident: IdentView| EntryView::Ident(ident)),
        None => Seq::empty(),
    }
}

/// The state after the root module is loaded and analyzed.
pub open spec fn load_root(source: UnitView, path: PathView, keep: Option<Seq<IdentView>>) -> Result<
    LoadView,
    ImportErrorView,
> {
    let load = LoadView {
        resolutions: ResolutionsView {
            modules: seq![loaded_module(source, path)],
            order: seq![path],
        },
        stack: Seq::empty(),
    };
    load.analyzed(0, root_entrypoints(source, path, keep))
}

/// How the loading of the root module and of everything it uses ends.
pub open spec fn load_outcome(
    source: UnitView,
    path: PathView,
    keep: Option<Seq<IdentView>>,
    exchanges: Seq<Exchange>,
    limit: nat,
) -> LoadOutcome {
    match load_root(source, path, keep) {
        Ok(load) => run(load, exchanges, keep is None, limit),
        Err(e) => ends_with(LoadOutcome::Failed(ErrorView::import(e), path), exchanges),
    }
}

/// Using more of a module keeps the resolutions valid, and the positions of the modules.
pub proof fn lemma_with_used(resolutions: ResolutionsView, i: int, used: Set<u64>)
    requires
        resolutions.valid(),
        0 <= i < resolutions.modules.len(),
    ensures
        resolutions.with_used(i, used).valid(),
        forall|path: PathView|
            #[trigger] position(resolutions.with_used(i, used).modules, path) == position(
                resolutions.modules,
                path,
            ),
{
    let before = resolutions.modules;
    let after = resolutions.with_used(i, used).modules;
    assert forall|path: PathView| #[trigger] position(after, path) == position(before, path) by {
        lemma_position_paths(before, after, path);
    }
    assert forall|j: int, k: int| 0 <= j < k < after.len() implies #[trigger] after[j].code.path
        != #[trigger] after[k].code.path by {
        assert(before[j].code.path != before[k].code.path);
    }
    assert forall|j: int| 0 <= j < resolutions.order.len() implies position(
        after,
        #[trigger] resolutions.with_used(i, used).order[j],
    ) is Some by {
        assert(position(before, resolutions.order[j]) is Some);
    }
}

/// Analyzes the module at position `i` from `entries`, and puts the items that it refers to
/// on the stack, so that the first one encountered is on top.
pub fn analyze_module(
    resolutions: &mut Resolutions,
    i: usize,
    entries: &Vec<Entrypoint>,
    stack: &mut Vec<ExtItem>,
) -> (res: Result<(), ImportError>)
    requires
        old(resolutions).wf(),
        i < old(resolutions).modules@.len(),
        forall|k: int|
            0 <= k < entries@.len() ==> ((#[trigger] entries@[k]) matches Entrypoint::Decl(n) ==> n
                < old(resolutions)@.modules[i as int].code.source.declarations.len()),
    ensures
        final(resolutions).wf(),
        ({
            let load = LoadView { resolutions: old(resolutions)@, stack: views(old(stack)@) };
            let module = old(resolutions)@.modules[i as int];
            &&& final(resolutions)@ == old(resolutions)@.with_used(
                i as int,
                analyze(module.code, module.used, Seq::empty(), views(entries@)).used,
            )
            &&& res is Ok ==> load.analyzed(i as int, views(entries@)) == Ok::<
                LoadView,
                ImportErrorView,
            >(LoadView { resolutions: final(resolutions)@, stack: views(final(stack)@) })
            &&& res matches Err(e) ==> load.analyzed(i as int, views(entries@)) == Err::<
                LoadView,
                ImportErrorView,
            >(e@) && final(stack)@ == old(stack)@
        }),
{
    let ghost before = *resolutions;
    let ghost module = resolutions@.modules[i as int];
    let ghost analysis = analyze(module.code, module.used, Seq::empty(), views(entries@));
    proof {
        lemma_with_used(resolutions@, i as int, analysis.used);
    }
    assert(resolutions.modules@[i as int].wf());
    let res = used_idents(&mut resolutions.modules[i], entries);
    proof {
        assert(resolutions@.modules =~= before@.with_used(i as int, analysis.used).modules);
        assert forall|j: int| 0 <= j < resolutions.modules@.len() implies (
        #[trigger] resolutions.modules@[j]).wf() by {
            if j != i {
                assert(resolutions.modules@[j] == before.modules@[j]);
            }
        }
    }
    match res {
        Ok(items) => {
            let mut items = items;
            let ghost found = views(items@);
            let ghost below = views(stack@);
            proof {
                assert(below + found.reverse().take(0) =~= below);
            }
            while items.len() > 0
                invariant
                    items@.len() <= found.len(),
                    views(items@) == found.take(items@.len() as int),
                    views(stack@) == below + found.reverse().take(found.len() - items@.len()),
                decreases items@.len(),
            {
                let ghost n = items@.len() as int;
                if let Some(item) = items.pop() {
                    assert(item@ == found[n - 1]) by {
                        assert(found.take(n)[n - 1] == found[n - 1]);
                    }
                    stack.push(item);
                    assert(views(items@) =~= found.take(n - 1));
                    assert(views(stack@) =~= below + found.reverse().take(found.len() - (n - 1)));
                }
            }
            assert(found.reverse().take(found.len() as int) =~= found.reverse());
            Ok(())
        },
        Err(e) => Err(e),
    }
}

/// Whether `err` is the error `e`, blamed on the module at `path` under a name that the
/// resolver gives it, unless `e` is blamed on a module already.
pub open spec fn blamed<R: Resolver>(
    resolver: &R,
    err: ErrorView,
    e: ErrorView,
    path: PathView,
) -> bool {
    exists|p: ModulePath, name: Option<String>|
        {
            &&& #[trigger] call_ensures(R::display_name, (resolver, &p), name)
            &&& p@ == path
            &&& err == e.located(LocationView { path, display_name: opt_view(name) })
        }
}

/// Blames an error on a module.
pub fn err_with_module<R: Resolver>(e: Error, path: &ModulePath, resolver: &R) -> (res: Error)
    ensures
        blamed(resolver, res@, e@, path@),
{
    let name = resolver.display_name(path);
    e.with_module_path(path.clone(), name)
}

/// The view of a resolver's answer.
pub open spec fn answer_view(answer: Result<TranslationUnit, ResolveError>) -> Result<
    UnitView,
    ResolveErrorView,
> {
    match answer {
        Ok(source) => Ok(source@),
        Err(e) => Err(e@),
    }
}

/// Gets a module if it is already loaded, or loads it with the resolver. The result is the
/// position of the module; the boolean is `true` if the module was not already loaded.
///
/// Resolution errors are attributed to the module that referenced the item (`from`).
pub fn load_module<R: Resolver>(
    path: &ModulePath,
    from: &ModulePath,
    resolutions: &mut Resolutions,
    resolver: &R,
) -> (res: Result<(usize, bool), Error>)
    requires
        old(resolutions).wf(),
    ensures
        final(resolutions).wf(),
        position(old(resolutions)@.modules, path@) matches Some(i) ==> {
            &&& res matches Ok((n, is_new)) && n == i && !is_new
            &&& final(resolutions)@ == old(resolutions)@
        },
        position(old(resolutions)@.modules, path@) is None ==> exists|
            answer: Result<TranslationUnit, ResolveError>,
        | #[trigger]
            call_ensures(R::resolve_module, (resolver, path), answer) && match answer {
                Ok(source) => {
                    &&& res matches Ok((n, is_new)) && is_new && position(
                        final(resolutions)@.modules,
                        path@,
                    ) == Some(n as int)
                    &&& final(resolutions)@ == old(resolutions)@.push(
                        loaded_module(source@, path@),
                    )
                },
                Err(e) => {
                    &&& res matches Err(err) && blamed(
                        resolver,
                        err@,
                        ErrorView::resolve(e@),
                        from@,
                    )
                    &&& final(resolutions)@ == old(resolutions)@
                },
            },
{
    if let Some(n) = resolutions.find(path) {
        Ok((n, false))
    } else {
        let answer = resolver.resolve_module(path);
        assert(call_ensures(R::resolve_module, (resolver, path), answer));
        match answer {
            Ok(source) => {
                let n: usize = init_module(source, path, resolutions);
                Ok((n, true))
            },
            Err(e) => Err(err_with_module(Error::resolve(e), from, resolver)),
        }
    }
}

/// What was asked of a resolver, and what it answered.
pub type Trace = Seq<(ModulePath, Result<TranslationUnit, ResolveError>)>;

/// Whether the resolver can have answered as the trace says.
pub open spec fn answered<R: Resolver>(resolver: &R, trace: Trace) -> bool {
    forall|i: int|
        0 <= i < trace.len() ==> call_ensures(
            R::resolve_module,
            (resolver, &(#[trigger] trace[i]).0),
            trace[i].1,
        )
}

/// The view of a trace.
pub open spec fn exchanges(trace: Trace) -> Seq<Exchange> {
    Seq::new(
        trace.len(),
        |i: int| Exchange { path: trace[i].0@, answer: answer_view(trace[i].1) },
    )
}

/// Whether the resolver was asked once for each module of `order` but the first one, in this
/// order, and for nothing else.
pub open spec fn asked_in_order(trace: Trace, order: Seq<PathView>) -> bool {
    &&& trace.len() + 1 == order.len()
    &&& forall|i: int| 0 <= i < trace.len() ==> (#[trigger] trace[i]).0@ == order[i + 1]
}

/// Whether a result is what an outcome demands.
pub open spec fn reports<R: Resolver>(
    resolver: &R,
    outcome: LoadOutcome,
    res: Result<Resolutions, Error>,
) -> bool {
    match outcome {
        LoadOutcome::Done(resolutions) => res matches Ok(r) && r@ == resolutions && r.wf(),
        LoadOutcome::Failed(e, path) => res matches Err(err) && blamed(resolver, err@, e, path),
        LoadOutcome::StepLimit => res matches Err(err) && err@ == (ErrorView {
            cause: CauseView::StepLimit,
            location: None,
        }),
        LoadOutcome::Mismatch => false,
    }
}

/// The view of the identifiers to keep.
pub open spec fn keep_view(keep: Option<Vec<Ident>>) -> Option<Seq<IdentView>> {
    match keep {
        Some(idents) => Some(views(idents@)),
        None => None,
    }
}

/// The entrypoints of a module lie inside it.
pub proof fn lemma_entrypoints_bound(
    decls: Seq<DeclView>,
    eager: bool,
    bound: int,
)
    requires
        decls.len() <= bound <= usize::MAX,
    ensures
        forall|i: int|
            0 <= i < entrypoints(decls, eager).len() ==> ((
            #[trigger] entrypoints(decls, eager)[i]) matches EntryView::Decl(n) ==> n < bound),
    decreases decls.len(),
{
    if decls.len() > 0 {
        lemma_entrypoints_bound(decls.drop_last(), eager, bound);
        let prev = entrypoints(decls.drop_last(), eager);
        assert forall|i: int| 0 <= i < entrypoints(decls, eager).len() implies ((
        #[trigger] entrypoints(decls, eager)[i]) matches EntryView::Decl(n) ==> n < bound) by {
            if i < prev.len() {
                assert(prev[i] == entrypoints(decls, eager)[i]);
            }
        }
    }
}

/// Loads and analyzes the root module. The result is the state of the loading: the loaded
/// modules, and the external items to resolve.
fn start<R: Resolver>(
    source: TranslationUnit,
    path: &ModulePath,
    keep: &Option<Vec<Ident>>,
    resolver: &R,
) -> (res: Result<(Resolutions, Vec<ExtItem>), Error>)
    ensures
        match load_root(source@, path@, keep_view(*keep)) {
            Ok(load) => res matches Ok((resolutions, stack)) && resolutions.wf() && load == (
            LoadView { resolutions: resolutions@, stack: views(stack@) }),
            Err(e) => res matches Err(err) && blamed(resolver, err@, ErrorView::import(e), path@),
        },
{
    let eager = keep.is_none();
    let mut resolutions = Resolutions::new_uninit();
    let mut stack: Vec<ExtItem> = Vec::new();
    let ghost empty = resolutions@;
    let ghost module = loaded_module(source@, path@);
    let n: usize = init_module(source, path, &mut resolutions);
    proof {
        assert(resolutions@.modules =~= seq![module]);
        assert(resolutions@.order =~= seq![path@]);
        assert(views(stack@) =~= Seq::empty());
        lemma_position(resolutions@.modules, path@);
        lemma_entrypoints_bound(
            module.code.source.declarations,
            eager,
            resolutions.modules@[0].source.global_declarations.len() as int,
        );
    }
    let mut entries = module_entrypoints(&resolutions.modules[n], eager);
    let ghost own = views(entries@);
    if let Some(idents) = keep {
        let ghost kept = views(idents@).map_values(|ident: IdentView| EntryView::Ident(ident));
        let mut i: usize = 0;
        proof {
            assert(own + kept.take(0) =~= own);
        }
        while i < idents.len()
            invariant
                i <= idents@.len(),
                kept == views(idents@).map_values(|ident: IdentView| EntryView::Ident(ident)),
                views(entries@) == own + kept.take(i as int),
            decreases idents@.len() - i,
        {
            entries.push(Entrypoint::Ident(idents[i].clone()));
            assert(views(entries@) =~= own + kept.take(i + 1));
            i += 1;
        }
        assert(kept.take(i as int) =~= kept);
    } else {
        assert(own + Seq::<EntryView>::empty() =~= own);
    }
    proof {
        assert(views(entries@) == root_entrypoints(source@, path@, keep_view(*keep)));
        assert forall|k: int| 0 <= k < entries@.len() implies ((
        #[trigger] entries@[k]) matches Entrypoint::Decl(n) ==> n
            < module.code.source.declarations.len()) by {
            assert(views(entries@)[k] == entries@[k]@);
            if k < own.len() {
                assert(own[k] == views(entries@)[k]);
            }
        }
    }
    match analyze_module(&mut resolutions, n, &entries, &mut stack) {
        Ok(()) => Ok((resolutions, stack)),
        Err(e) => Err(err_with_module(Error::import(e), path, resolver)),
    }
}

/// Resolves the item called `ident` in the module at position `n`. A newly loaded module has
/// its own entrypoints, analyzed before the item that caused the load.
pub fn resolve_item(
    resolutions: &mut Resolutions,
    n: usize,
    is_new: bool,
    ident: Ident,
    eager: bool,
    stack: &mut Vec<ExtItem>,
) -> (res: Result<(), ImportError>)
    requires
        old(resolutions).wf(),
        n < old(resolutions).modules@.len(),
    ensures
        final(resolutions).wf(),
        ({
            let load = LoadView { resolutions: old(resolutions)@, stack: views(old(stack)@) };
            let decls = old(resolutions)@.modules[n as int].code.source.declarations;
            let own = if is_new {
                entrypoints(decls, eager)
            } else {
                Seq::empty()
            };
            let next = load.analyzed(n as int, own.push(EntryView::Ident(ident@)));
            &&& res is Ok ==> next == Ok::<LoadView, ImportErrorView>(
                LoadView { resolutions: final(resolutions)@, stack: views(final(stack)@) },
            )
            &&& res matches Err(e) ==> next == Err::<LoadView, ImportErrorView>(e@)
                && final(stack)@ == old(stack)@
            &&& final(resolutions)@ == old(resolutions)@.with_used(
                n as int,
                analyze(
                    old(resolutions)@.modules[n as int].code,
                    old(resolutions)@.modules[n as int].used,
                    Seq::empty(),
                    own.push(EntryView::Ident(ident@)),
                ).used,
            )
        }),
{
    let ghost decls = resolutions@.modules[n as int].code.source.declarations;
    let mut entries: Vec<Entrypoint> = Vec::new();
    assert(views(entries@) =~= Seq::empty());
    if is_new {
        entries = module_entrypoints(&resolutions.modules[n], eager);
    }
    let ghost own = views(entries@);
    entries.push(Entrypoint::Ident(ident));
    proof {
        lemma_entrypoints_bound(
            decls,
            eager,
            resolutions.modules@[n as int].source.global_declarations.len() as int,
        );
        assert forall|k: int| 0 <= k < entries@.len() implies ((
        #[trigger] entries@[k]) matches Entrypoint::Decl(d) ==> d < decls.len()) by {
            if k < own.len() {
                assert(own[k] == entries@[k]@);
            }
        }
    }
    analyze_module(resolutions, n, &entries, stack)
}

/// Whether a loading that started in `first` is in `load` after the exchanges `past`.
#[verifier::opaque]
spec fn tracks(
    first: LoadView,
    past: Seq<Exchange>,
    load: LoadView,
    eager: bool,
    limit: nat,
    left: nat,
) -> bool {
    forall|rest: Seq<Exchange>| #[trigger]
        run(first, past + rest, eager, limit) == run(load, rest, eager, left)
}

proof fn lemma_tracks_start(first: LoadView, eager: bool, limit: nat)
    ensures
        tracks(first, Seq::empty(), first, eager, limit, limit),
{
    reveal(tracks);
    assert forall|rest: Seq<Exchange>| #[trigger]
        run(first, Seq::<Exchange>::empty() + rest, eager, limit) == run(
        first,
        rest,
        eager,
        limit,
    ) by {
        assert(Seq::<Exchange>::empty() + rest =~= rest);
    }
}

/// What the exchanges so far, and more, lead to.
proof fn lemma_tracks_run(
    first: LoadView,
    past: Seq<Exchange>,
    load: LoadView,
    eager: bool,
    limit: nat,
    left: nat,
    more: Seq<Exchange>,
)
    requires
        tracks(first, past, load, eager, limit, left),
    ensures
        run(first, past + more, eager, limit) == run(load, more, eager, left),
{
    reveal(tracks);
}

/// A step in a loaded module needs no exchange.
proof fn lemma_tracks_step(
    first: LoadView,
    past: Seq<Exchange>,
    load: LoadView,
    next: LoadView,
    eager: bool,
    limit: nat,
    left: nat,
)
    requires
        tracks(first, past, load, eager, limit, left),
        load.stack.len() > 0,
        left > 0,
        load.next_module() is Some,
        load.step() == Ok::<LoadView, ImportErrorView>(next),
    ensures
        tracks(first, past, next, eager, limit, (left - 1) as nat),
{
    reveal(tracks);
}

/// A step into a new module takes one exchange.
proof fn lemma_tracks_ask(
    first: LoadView,
    past: Seq<Exchange>,
    load: LoadView,
    x: Exchange,
    next: LoadView,
    eager: bool,
    limit: nat,
    left: nat,
)
    requires
        tracks(first, past, load, eager, limit, left),
        load.stack.len() > 0,
        left > 0,
        load.next_module() is None,
        x.path == load.stack.last().path,
        x.answer is Ok,
        load.step_into(x.answer->Ok_0, eager) == Ok::<LoadView, ImportErrorView>(next),
    ensures
        tracks(first, past.push(x), next, eager, limit, (left - 1) as nat),
{
    reveal(tracks);
    assert forall|rest: Seq<Exchange>| #[trigger]
        run(first, past.push(x) + rest, eager, limit) == run(
        next,
        rest,
        eager,
        (left - 1) as nat,
    ) by {
        let more = seq![x] + rest;
        assert(past.push(x) + rest =~= past + more);
        assert(more.drop_first() =~= rest);
        assert(run(first, past + more, eager, limit) == run(load, more, eager, left));
    }
}

/// The trace so far decides the outcome.
proof fn lemma_tracks_end(
    first: LoadView,
    past: Seq<Exchange>,
    load: LoadView,
    eager: bool,
    limit: nat,
    left: nat,
)
    requires
        tracks(first, past, load, eager, limit, left),
    ensures
        run(first, past, eager, limit) == run(load, Seq::empty(), eager, left),
{
    lemma_tracks_run(first, past, load, eager, limit, left, Seq::empty());
    assert(past + Seq::<Exchange>::empty() =~= past);
}

/// The view of a trace with one more exchange.
proof fn lemma_exchanges_push(
    trace: Trace,
    path: ModulePath,
    answer: Result<TranslationUnit, ResolveError>,
)
    ensures
        exchanges(trace.push((path, answer))) == exchanges(trace).push(
            Exchange { path: path@, answer: answer_view(answer) },
        ),
{
    assert(exchanges(trace.push((path, answer))) =~= exchanges(trace).push(
        Exchange { path: path@, answer: answer_view(answer) },
    ));
}

/// A trace that leads to the loaded modules one by one asks for them in order.
proof fn lemma_asked_in_order(trace: Trace, loaded: ResolutionsView)
    requires
        (LoadView { resolutions: loaded, stack: Seq::empty() }).ordered(),
        asked_one_by_one(exchanges(trace), loaded.modules.drop_first()),
    ensures
        asked_in_order(trace, loaded.order),
{
    let all = exchanges(trace);
    let modules = loaded.modules.drop_first();
    assert forall|i: int| 0 <= i < trace.len() implies (#[trigger] trace[i]).0@
        == loaded.order[i + 1] by {
        assert(is_answer(all[i], modules[i]));
        assert(loaded.modules[i + 1].code.path == loaded.order[i + 1]);
    }
}

/// Loads the root module and, iteratively, all modules it uses, transitively.
///
/// If `keep` is `Some`, resolution is lazy: only the `keep` declarations of the root
/// module (plus module-scope `const_assert`s) are entrypoints, and external modules are
/// loaded only when one of their declarations is used. If `keep` is `None`, resolution
/// is eager: all declarations of all loaded modules are entrypoints.
///
/// Re-exports that lead in a circle, or modules that use new modules without end, would
/// keep the loading busy for ever: it gives up after `limit` external items.
#[verifier::rlimit(50)]
pub fn load_modules<R: Resolver>(
    source: TranslationUnit,
    path: &ModulePath,
    keep: Option<Vec<Ident>>,
    resolver: &R,
    limit: u64,
) -> (res: Result<Resolutions, Error>)
    ensures
        exists|trace: Trace| #[trigger]
            answered(resolver, trace) && reports(
                resolver,
                load_outcome(source@, path@, keep_view(keep), exchanges(trace), limit as nat),
                res,
            ) && (res matches Ok(r) ==> asked_in_order(trace, r@.order)),
{
    let eager = keep.is_none();
    let ghost mut trace: Trace = Seq::empty();
    let ghost root = load_root(source@, path@, keep_view(keep));
    assert(answered(resolver, trace));
    let (resolutions, stack) = match start(source, path, &keep, resolver) {
        Ok(state) => state,
        Err(e) => return Err(e),
    };
    let mut resolutions = resolutions;
    // external items to resolve. Items are pushed in reverse and popped from the back,
    // so modules are visited depth-first in the order items are encountered.
    let mut stack = stack;
    let ghost first = root->Ok_0;
    let mut left: u64 = limit;
    proof {
        assert(exchanges(trace) =~= Seq::empty());
        lemma_tracks_start(first, eager, limit as nat);
    }
    while stack.len() > 0
        invariant
            resolutions.wf(),
            eager == (keep is None),
            left <= limit,
            root == load_root(source@, path@, keep_view(keep)),
            root == Ok::<LoadView, ImportErrorView>(first),
            answered(resolver, trace),
            tracks(
                first,
                exchanges(trace),
                LoadView { resolutions: resolutions@, stack: views(stack@) },
                eager,
                limit as nat,
                left as nat,
            ),
        decreases left,
    {
        let ghost load = LoadView { resolutions: resolutions@, stack: views(stack@) };
        let ghost past = exchanges(trace);
        if left == 0 {
            proof {
                lemma_tracks_end(first, past, load, eager, limit as nat, left as nat);
                assert(answered(resolver, trace));
            }
            return Err(Error { cause: Cause::StepLimit, location: None });
        }
        if let Some(item) = stack.pop() {
            proof {
                assert(load.stack.drop_last() =~= views(stack@));
                assert(load.stack.last() == item@);
                lemma_position(resolutions@.modules, item@.path);
            }
            match load_module(&item.path, &item.from, &mut resolutions, resolver) {
                Ok((n, is_new)) => {
                    let ghost grown = LoadView { resolutions: resolutions@, stack: views(stack@) };
                    let ghost mut source: UnitView = arbitrary();
                    proof {
                        lemma_position(resolutions@.modules, item@.path);
                        assert(Seq::<EntryView>::empty().push(EntryView::Ident(item@.ident))
                            =~= seq![EntryView::Ident(item@.ident)]);
                        if load.next_module() is None {
                            let answer = choose|answer: Result<TranslationUnit, ResolveError>|
                                #[trigger] call_ensures(
                                    R::resolve_module,
                                    (resolver, &item.path),
                                    answer,
                                ) && (answer matches Ok(source) && resolutions@
                                    == load.resolutions.push(loaded_module(source@, item.path@)));
                            source = answer->Ok_0@;
                            lemma_push(load.resolutions, loaded_module(source, item@.path));
                            lemma_exchanges_push(trace, item.path, answer);
                            trace = trace.push((item.path, answer));
                            assert(answered(resolver, trace));
                        }
                    }
                    let resolved = resolve_item(
                        &mut resolutions,
                        n,
                        is_new,
                        item.ident,
                        eager,
                        &mut stack,
                    );
                    match resolved {
                        Ok(()) => {
                            proof {
                                let next = LoadView {
                                    resolutions: resolutions@,
                                    stack: views(stack@),
                                };
                                if is_new {
                                    let x = Exchange { path: item@.path, answer: Ok(source) };
                                    lemma_tracks_ask(
                                        first,
                                        past,
                                        load,
                                        x,
                                        next,
                                        eager,
                                        limit as nat,
                                        left as nat,
                                    );
                                } else {
                                    lemma_tracks_step(
                                        first,
                                        past,
                                        load,
                                        next,
                                        eager,
                                        limit as nat,
                                        left as nat,
                                    );
                                }
                            }
                        },
                        Err(e) => {
                            proof {
                                let outcome = LoadOutcome::Failed(
                                    ErrorView::import(e@),
                                    item@.path,
                                );
                                if is_new {
                                    let x = Exchange { path: item@.path, answer: Ok(source) };
                                    lemma_tracks_run(
                                        first,
                                        past,
                                        load,
                                        eager,
                                        limit as nat,
                                        left as nat,
                                        seq![x],
                                    );
                                    assert(past + seq![x] =~= exchanges(trace));
                                    assert(run(load, seq![x], eager, left as nat) == outcome);
                                } else {
                                    lemma_tracks_end(
                                        first,
                                        past,
                                        load,
                                        eager,
                                        limit as nat,
                                        left as nat,
                                    );
                                    assert(run(load, Seq::empty(), eager, left as nat) == outcome);
                                }
                            }
                            return Err(err_with_module(Error::import(e), &item.path, resolver));
                        },
                    }
                },
                Err(e) => {
                    proof {
                        let answer = choose|answer: Result<TranslationUnit, ResolveError>|
                            #[trigger] call_ensures(
                                R::resolve_module,
                                (resolver, &item.path),
                                answer,
                            ) && (answer matches Err(cause) && blamed(
                                resolver,
                                e@,
                                ErrorView::resolve(cause@),
                                item.from@,
                            ));
                        lemma_exchanges_push(trace, item.path, answer);
                        trace = trace.push((item.path, answer));
                        assert(answered(resolver, trace));
                        let x = Exchange { path: item@.path, answer: answer_view(answer) };
                        lemma_tracks_run(
                            first,
                            past,
                            load,
                            eager,
                            limit as nat,
                            left as nat,
                            seq![x],
                        );
                        assert(past + seq![x] =~= exchanges(trace));
                        assert(run(load, seq![x], eager, left as nat) is Failed);
                    }
                    return Err(e);
                },
            }
            left = left - 1;
        }
    }
    proof {
        lemma_tracks_end(
            first,
            exchanges(trace),
            LoadView { resolutions: resolutions@, stack: views(stack@) },
            eager,
            limit as nat,
            left as nat,
        );
        lemma_outcome_ordered(
            source@,
            path@,
            keep_view(keep),
            exchanges(trace),
            limit as nat,
            resolutions@,
        );
        lemma_asked_in_order(trace, resolutions@);
        assert(answered(resolver, trace));
    }
    Ok(resolutions)
}

} // verus!
