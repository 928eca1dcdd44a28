//! Usage analysis: which declarations of a module are used, and which items of other
//! modules they refer to. No other module is looked at.
use crate::error::{ImportError, ImportErrorView};
use crate::imports::{inline_path, resolve_inline_path};
use crate::module::{lemma_decl_index, CodeView, Module};
use crate::syntax::{
    DeclView, GlobalDeclaration, Ident, IdentView, ModulePath, PathView, TypeExpression, TypeView,
};
use crate::table::{by_id, find_by_id, lemma_by_id, lemma_by_name};
use crate::views::{group_views, views};
use std::collections::HashSet;
use vstd::prelude::*;

verus! {

broadcast use {group_views, vstd::std_specs::hash::group_hash_axioms};

/// An item used by a module and declared in another module.
#[derive(Debug)]
pub struct ExtItem {
    /// The module that uses the item.
    pub from: ModulePath,
    /// The module that declares the item.
    pub path: ModulePath,
    /// The name of the declaration in the other module.
    pub ident: Ident,
}

pub ghost struct ExtView {
    pub from: PathView,
    pub path: PathView,
    pub ident: IdentView,
}

impl View for ExtItem {
    type V = ExtView;

    open spec fn view(&self) -> ExtView {
        ExtView { from: self.from@, path: self.path@, ident: self.ident@ }
    }
}

/// A declaration from which usage analysis starts in a module.
#[derive(Debug)]
pub enum Entrypoint {
    /// A declaration (or re-export) named by this identifier.
    Ident(Ident),
    /// The declaration at this position.
    Decl(usize),
}

pub ghost enum EntryView {
    Ident(IdentView),
    Decl(usize),
}

impl View for Entrypoint {
    type V = EntryView;

    open spec fn view(&self) -> EntryView {
        match self {
            Entrypoint::Ident(ident) => EntryView::Ident(ident@),
            Entrypoint::Decl(n) => EntryView::Decl(*n),
        }
    }
}

/// The type expressions in a type expression, itself included: those inside come first,
/// from left to right.
pub open spec fn post_order(ty: TypeView) -> Seq<TypeView>
    decreases ty, 1nat,
{
    post_orders(ty.nested).push(ty)
}

/// The type expressions in each of `types`, one after the other.
pub open spec fn post_orders(types: Seq<TypeView>) -> Seq<TypeView>
    decreases types, 0nat,
{
    if types.len() == 0 {
        Seq::empty()
    } else {
        post_orders(types.drop_last()) + post_order(types.last())
    }
}

/// The traversals of two lists follow each other.
pub proof fn lemma_post_orders_concat(a: Seq<TypeView>, b: Seq<TypeView>)
    ensures
        post_orders(a + b) == post_orders(a) + post_orders(b),
    decreases b.len(),
{
    if b.len() == 0 {
        assert(a + b =~= a);
        assert(post_orders(a) + post_orders(b) =~= post_orders(a));
    } else {
        assert((a + b).drop_last() =~= a + b.drop_last());
        lemma_post_orders_concat(a, b.drop_last());
        assert(post_orders(a + b) =~= post_orders(a) + post_orders(b));
    }
}

/// The type expressions in a declaration, in resolution order: nested type expressions
/// come before the type expression that contains them.
pub fn type_exprs(decl: &GlobalDeclaration) -> (res: Vec<&TypeExpression>)
    ensures
        views(res@) == post_orders(decl@.types),
{
    // pre-order with children visited right-to-left, reversed, is the left-to-right
    // post-order we want.
    let mut stack: Vec<&TypeExpression> = Vec::new();
    let mut i: usize = 0;
    while i < decl.types.len()
        invariant
            i <= decl.types@.len(),
            views(stack@) == decl@.types.take(i as int),
        decreases decl.types@.len() - i,
    {
        stack.push(&decl.types[i]);
        assert(decl@.types.take(i + 1) =~= decl@.types.take(i as int).push(decl@.types[i as int]));
        i += 1;
    }
    assert(decl@.types.take(i as int) =~= decl@.types);
    let mut res: Vec<&TypeExpression> = Vec::new();
    assert(post_orders(views(stack@)) + views(res@).reverse() =~= post_orders(decl@.types));
    while stack.len() > 0
        invariant
            post_orders(views(stack@)) + views(res@).reverse() == post_orders(decl@.types),
        decreases post_orders(views(stack@)).len(),
    {
        let ghost before = views(stack@);
        let ghost found = views(res@);
        if let Some(ty) = stack.pop() {
            let ghost rest = views(stack@);
            proof {
                assert(before.drop_last() =~= rest);
                assert(before.last() == ty@);
            }
            res.push(ty);
            let mut k: usize = 0;
            while k < ty.nested.len()
                invariant
                    k <= ty.nested@.len(),
                    views(stack@) == rest + ty@.nested.take(k as int),
                decreases ty.nested@.len() - k,
            {
                stack.push(&ty.nested[k]);
                assert(rest + ty@.nested.take(k + 1) =~= (rest + ty@.nested.take(k as int)).push(
                    ty@.nested[k as int],
                ));
                k += 1;
            }
            proof {
                assert(ty@.nested.take(k as int) =~= ty@.nested);
                lemma_post_orders_concat(rest, ty@.nested);
                assert(found.push(ty@).reverse() =~= seq![ty@] + found.reverse());
                assert(views(res@) == found.push(ty@));
                assert(post_order(ty@) == post_orders(ty@.nested).push(ty@));
                assert(post_orders(before) == post_orders(rest) + post_orders(ty@.nested).push(ty@));
                assert(post_orders(views(stack@)) + (seq![ty@] + found.reverse())
                    =~= post_orders(before) + found.reverse());
                assert(post_orders(before).len() == post_orders(views(stack@)).len() + 1);
            }
        }
    }
    reverse(&mut res);
    proof {
        assert(post_orders(views(stack@)) =~= Seq::empty());
        assert(views(res@) =~= post_orders(decl@.types));
    }
    res
}

/// Turns a vector around.
fn reverse<'a>(items: &mut Vec<&'a TypeExpression>)
    ensures
        views(final(items)@) == views(old(items)@).reverse(),
{
    let mut res: Vec<&'a TypeExpression> = Vec::new();
    let mut i: usize = items.len();
    while i > 0
        invariant
            i <= items@.len(),
            items@ == old(items)@,
            res@.len() == items@.len() - i,
            forall|j: int|
                0 <= j < res@.len() ==> #[trigger] res@[j] == items@[items@.len() - 1 - j],
        decreases i,
    {
        i -= 1;
        res.push(items[i]);
    }
    *items = res;
    assert(views(items@) =~= views(old(items)@).reverse());
}

/// The entrypoints that a declaration contributes when its module is loaded.
pub open spec fn decl_entrypoints(decl: DeclView, n: usize, eager: bool) -> Seq<EntryView> {
    match decl.ident() {
        Some(ident) => if eager {
            seq![EntryView::Ident(ident)]
        } else {
            Seq::empty()
        },
        None => if eager || decl.kind is ConstAssert {
            seq![EntryView::Decl(n)]
        } else {
            Seq::empty()
        },
    }
}

/// The entrypoints of a list of declarations, in source order.
pub open spec fn entrypoints(decls: Seq<DeclView>, eager: bool) -> Seq<EntryView>
    decreases decls.len(),
{
    if decls.len() == 0 {
        Seq::empty()
    } else {
        entrypoints(decls.drop_last(), eager) + decl_entrypoints(
            decls.last(),
            (decls.len() - 1) as usize,
            eager,
        )
    }
}

/// The entrypoints analyzed when a module is loaded: all declarations in eager mode,
/// only module-scope `const_assert`s in lazy mode.
pub fn module_entrypoints(module: &Module, eager: bool) -> (res: Vec<Entrypoint>)
    ensures
        views(res@) == entrypoints(module@.code.source.declarations, eager),
{
    let decls = &module.source.global_declarations;
    let mut res: Vec<Entrypoint> = Vec::new();
    assert(views(res@) =~= Seq::empty());
    let mut i: usize = 0;
    while i < decls.len()
        invariant
            i <= decls@.len(),
            views(res@) == entrypoints(views(decls@).take(i as int), eager),
        decreases decls@.len() - i,
    {
        let ghost before = views(res@);
        let decl = &decls[i];
        proof {
            let next = views(decls@).take(i + 1);
            assert(next.drop_last() =~= views(decls@).take(i as int));
            assert(next.last() == decl@);
        }
        if let Some(ident) = decl.ident() {
            if eager {
                res.push(Entrypoint::Ident(ident.clone()));
            }
        } else if eager || decl.is_const_assert() {
            res.push(Entrypoint::Decl(i));
        }
        assert(views(res@) =~= before + decl_entrypoints(decl@, i, eager));
        i += 1;
    }
    assert(views(decls@).take(i as int) =~= views(decls@));
    res
}

/// What becomes of a reference.
pub ghost enum Step {
    /// It is a builtin, or bound elsewhere: there is nothing to do.
    Skip,
    /// It means the declaration at this position of the module.
    Enter(usize),
    /// It means an item of another module.
    Refer(ExtView),
    /// It means nothing.
    Fail(ImportErrorView),
}

impl CodeView {
    /// The module and the name there that a type expression refers to, if it is imported.
    pub open spec fn target(self, ty: TypeView) -> Option<(PathView, IdentView)> {
        match ty.path {
            Some(path) => Some((inline_path(path, self.path, self.imports), ty.ident)),
            None => match by_id(self.imports, ty.ident.id) {
                Some((_, item)) => Some((item.path, item.ident)),
                None => None,
            },
        }
    }

    /// What becomes of a type expression inside a used declaration.
    ///
    /// A path that leads back to the module itself only has to name a declaration that
    /// exists: it makes nothing used.
    pub open spec fn reference(self, ty: TypeView) -> Step {
        match self.target(ty) {
            None => match by_id(self.idents(), ty.ident.id) {
                Some((_, n)) => Step::Enter(n),
                None => Step::Skip,
            },
            Some((path, ident)) => if path != self.path {
                Step::Refer(ExtView { from: self.path, path, ident })
            } else if self.declares(ty.ident.id) {
                Step::Skip
            } else {
                Step::Fail(ImportErrorView::MissingDecl(path, ty.ident.name))
            },
        }
    }

    /// What becomes of a request for `ident` from outside: it means a declaration, or else
    /// an import, which then has to be public.
    pub open spec fn request(self, ident: IdentView) -> Step {
        match self.find_decl(ident) {
            Some((_, n)) => Step::Enter(n),
            None => match self.find_import(ident) {
                Some((_, item)) => if item.public {
                    Step::Refer(
                        ExtView { from: self.path, path: item.path, ident: item.ident },
                    )
                } else {
                    Step::Fail(ImportErrorView::Private(ident.name, self.path))
                },
                None => Step::Fail(ImportErrorView::MissingDecl(self.path, ident.name)),
            },
        }
    }

    /// Whether the declaration at position `n` has not been analyzed yet.
    pub open spec fn fresh(self, used: Set<u64>, n: usize) -> bool {
        &&& n < self.source.declarations.len()
        &&& self.source.declarations[n as int].ident() matches Some(ident)
        &&& !used.contains(ident.id)
    }

    /// The used identifiers once the declaration at position `n` is used as well.
    pub open spec fn mark(self, used: Set<u64>, n: usize) -> Set<u64> {
        used.insert(self.source.declarations[n as int].ident()->0.id)
    }

    /// The type expressions of the declaration at position `n`, in resolution order.
    pub open spec fn types_of(self, n: usize) -> Seq<TypeView> {
        post_orders(self.source.declarations[n as int].types)
    }
}

/// How many declarations are not used yet.
pub open spec fn unmarked(decls: Seq<DeclView>, used: Set<u64>) -> nat
    decreases decls.len(),
{
    if decls.len() == 0 {
        0
    } else {
        unmarked(decls.drop_last(), used) + if decls.last().ident() is Some && !used.contains(
            decls.last().ident()->0.id,
        ) {
            1nat
        } else {
            0nat
        }
    }
}

/// Marking an identifier leaves at most as many declarations unmarked, and fewer if one
/// of them declares it.
pub proof fn lemma_unmarked(decls: Seq<DeclView>, used: Set<u64>, id: u64)
    ensures
        unmarked(decls, used.insert(id)) <= unmarked(decls, used),
        !used.contains(id) && (exists|n: int|
            0 <= n < decls.len() && (#[trigger] decls[n]).declares(id)) ==> unmarked(
            decls,
            used.insert(id),
        ) < unmarked(decls, used),
    decreases decls.len(),
{
    if decls.len() > 0 {
        lemma_unmarked(decls.drop_last(), used, id);
        if !used.contains(id) && (exists|n: int|
            0 <= n < decls.len() && (#[trigger] decls[n]).declares(id)) {
            let n = choose|n: int| 0 <= n < decls.len() && (#[trigger] decls[n]).declares(id);
            if n < decls.len() - 1 {
                assert(decls.drop_last()[n].declares(id));
            }
        }
    }
}

/// The result of an analysis: what is used now, and the references to other modules or the
/// first failure.
pub ghost struct Analysis {
    pub used: Set<u64>,
    pub outcome: Result<Seq<ExtView>, ImportErrorView>,
}

/// The analysis of the type expressions in `pending`, in this order, where the type
/// expressions of a declaration that is used for the first time are analyzed in place of
/// the reference to it.
pub open spec fn walk(
    code: CodeView,
    used: Set<u64>,
    items: Seq<ExtView>,
    pending: Seq<TypeView>,
) -> Analysis
    decreases unmarked(code.source.declarations, used), pending.len(),
{
    if pending.len() == 0 {
        Analysis { used, outcome: Ok(items) }
    } else {
        let rest = pending.drop_first();
        match code.reference(pending[0]) {
            Step::Skip => walk(code, used, items, rest),
            Step::Enter(n) => if code.fresh(used, n) {
                proof {
                    let decl = code.source.declarations[n as int];
                    assert(decl.declares(decl.ident()->0.id));
                    lemma_unmarked(code.source.declarations, used, decl.ident()->0.id);
                }
                walk(code, code.mark(used, n), items, code.types_of(n) + rest)
            } else {
                walk(code, used, items, rest)
            },
            Step::Refer(item) => walk(code, used, items.push(item), rest),
            Step::Fail(e) => Analysis { used, outcome: Err(e) },
        }
    }
}

/// The analysis from one entrypoint.
pub open spec fn analyze_entry(
    code: CodeView,
    used: Set<u64>,
    items: Seq<ExtView>,
    entry: EntryView,
) -> Analysis {
    match entry {
        EntryView::Decl(n) => walk(code, used, items, code.types_of(n)),
        EntryView::Ident(ident) => match code.request(ident) {
            Step::Skip => Analysis { used, outcome: Ok(items) },
            Step::Enter(n) => if code.fresh(used, n) {
                walk(code, code.mark(used, n), items, code.types_of(n))
            } else {
                Analysis { used, outcome: Ok(items) }
            },
            Step::Refer(item) => Analysis { used, outcome: Ok(items.push(item)) },
            Step::Fail(e) => Analysis { used, outcome: Err(e) },
        },
    }
}

/// The analysis from one entrypoint after the other, up to the first failure.
pub open spec fn analyze(
    code: CodeView,
    used: Set<u64>,
    items: Seq<ExtView>,
    entries: Seq<EntryView>,
) -> Analysis
    decreases entries.len(),
{
    if entries.len() == 0 {
        Analysis { used, outcome: Ok(items) }
    } else {
        let first = analyze_entry(code, used, items, entries[0]);
        match first.outcome {
            Ok(found) => analyze(code, first.used, found, entries.drop_first()),
            Err(_) => first,
        }
    }
}

/// A declaration that is being traversed: its type expressions, of which those before
/// `next` are done.
struct Frame<'a> {
    types: Vec<&'a TypeExpression>,
    next: usize,
}

/// The type expressions that are left to do, innermost traversal first.
spec fn pending<'a>(frames: Seq<Frame<'a>>) -> Seq<TypeView>
    decreases frames.len(),
{
    if frames.len() == 0 {
        Seq::empty()
    } else {
        views(frames.last().types@).skip(frames.last().next as int) + pending(frames.drop_last())
    }
}

/// Every traversal is at a valid position.
spec fn in_bounds<'a>(frames: Seq<Frame<'a>>) -> bool {
    forall|i: int|
        0 <= i < frames.len() ==> (#[trigger] frames[i]).next <= frames[i].types@.len()
}

/// The position that a table lookup yields leads to a declaration.
proof fn lemma_position(module: &Module, ident: IdentView)
    requires
        module.wf(),
    ensures
        module@.code.find_decl(ident) matches Some((key, n)) ==> n
            < module@.code.source.declarations.len()
            && module@.code.source.declarations[n as int].declares(key.id),
        by_id(module@.code.idents(), ident.id) matches Some((key, n)) ==> n
            < module@.code.source.declarations.len()
            && module@.code.source.declarations[n as int].declares(key.id),
{
    assert(module.source.global_declarations.len() <= usize::MAX);
    lemma_decl_index(module@.code.source.declarations);
    lemma_by_id(module@.code.idents(), ident.id);
    lemma_by_name(module@.code.idents(), ident.name);
}

/// Starts analyzing the declaration at position `n`, unless that was done before.
fn enter_decl<'a>(
    module: &'a Module,
    n: usize,
    used: &mut HashSet<u64>,
    frames: &mut Vec<Frame<'a>>,
)
    requires
        n < module@.code.source.declarations.len(),
        module@.code.source.declarations[n as int].ident() is Some,
        in_bounds(old(frames)@),
    ensures
        in_bounds(final(frames)@),
        module@.code.fresh(old(used)@, n) ==> final(used)@ == module@.code.mark(old(used)@, n)
            && pending(final(frames)@) == module@.code.types_of(n) + pending(old(frames)@),
        !module@.code.fresh(old(used)@, n) ==> final(used)@ == old(used)@ && final(frames)@ == old(
            frames,
        )@,
{
    let decl = &module.source.global_declarations[n];
    if let Some(ident) = decl.ident() {
        if used.insert(ident.id) {
            frames.push(Frame { types: type_exprs(decl), next: 0 });
            proof {
                assert(frames@.drop_last() =~= old(frames)@);
                assert(views(frames@.last().types@).skip(0) =~= module@.code.types_of(n));
            }
        } else {
            // already analyzed
            assert(used@ =~= old(used)@);
        }
    }
}

/// Starts analyzing the declaration (or re-export) named `ident` in a module.
/// The identifier must not be a builtin.
///
/// If it names a local declaration not yet analyzed, the declaration is marked used and
/// its type expressions are pushed onto `frames`. If it names a re-export
/// (`@publish import`), the imported item is recorded in `ext_items`.
fn use_decl<'a>(
    module: &'a Module,
    ident: &Ident,
    used: &mut HashSet<u64>,
    frames: &mut Vec<Frame<'a>>,
    ext_items: &mut Vec<ExtItem>,
) -> (res: Result<(), ImportError>)
    requires
        module.wf(),
        in_bounds(old(frames)@),
    ensures
        in_bounds(final(frames)@),
        !(module@.code.request(ident@) is Skip),
        module@.code.request(ident@) matches Step::Enter(n) ==> {
            &&& res is Ok
            &&& views(final(ext_items)@) == views(old(ext_items)@)
            &&& module@.code.fresh(old(used)@, n) ==> final(used)@ == module@.code.mark(
                old(used)@,
                n,
            ) && pending(final(frames)@) == module@.code.types_of(n) + pending(old(frames)@)
            &&& !module@.code.fresh(old(used)@, n) ==> final(used)@ == old(used)@
                && final(frames)@ == old(frames)@
        },
        module@.code.request(ident@) matches Step::Refer(item) ==> {
            &&& res is Ok
            &&& views(final(ext_items)@) == views(old(ext_items)@).push(item)
            &&& final(used)@ == old(used)@
            &&& final(frames)@ == old(frames)@
        },
        module@.code.request(ident@) matches Step::Fail(e) ==> {
            &&& res matches Err(err) && err@ == e
            &&& final(used)@ == old(used)@
            &&& final(frames)@ == old(frames)@
            &&& final(ext_items)@ == old(ext_items)@
        },
{
    proof {
        lemma_position(module, ident@);
    }
    if let Some((_, n)) = module.find_decl(ident) {
        enter_decl(module, n, used, frames);
        Ok(())
    } else if let Some((_, item)) = module.find_import(ident) {
        // the declaration can be a re-export (`@publish import`)
        if item.public {
            ext_items.push(
                ExtItem {
                    from: module.path.clone(),
                    path: item.path.clone(),
                    ident: item.ident.clone(),
                },
            );
            Ok(())
        } else {
            Err(ImportError::Private(ident.name.clone(), module.path.clone()))
        }
    } else {
        Err(ImportError::MissingDecl(module.path.clone(), ident.name.clone()))
    }
}

/// Analyzes everything that is left to do in `frames`.
fn drain_frames<'a>(
    module: &'a Module,
    used: &mut HashSet<u64>,
    frames: &mut Vec<Frame<'a>>,
    ext_items: &mut Vec<ExtItem>,
) -> (res: Result<(), ImportError>)
    requires
        module.wf(),
        in_bounds(old(frames)@),
    ensures
        ({
            let analysis = walk(
                module@.code,
                old(used)@,
                views(old(ext_items)@),
                pending(old(frames)@),
            );
            &&& final(used)@ == analysis.used
            &&& res is Ok ==> analysis.outcome == Ok::<Seq<ExtView>, ImportErrorView>(
                views(final(ext_items)@),
            )
            &&& res matches Err(e) ==> analysis.outcome == Err::<Seq<ExtView>, ImportErrorView>(e@)
        }),
        res is Ok ==> final(frames)@.len() == 0,
{
    let ghost code = module@.code;
    let ghost goal = walk(code, used@, views(ext_items@), pending(frames@));
    while frames.len() > 0
        invariant
            module.wf(),
            code == module@.code,
            in_bounds(frames@),
            goal == walk(code, used@, views(ext_items@), pending(frames@)),
            goal == walk(code, old(used)@, views(old(ext_items)@), pending(old(frames)@)),
        decreases unmarked(code.source.declarations, used@), pending(frames@).len(), frames@.len(),
    {
        let ghost before = frames@;
        let ghost todo = pending(frames@);
        let last: usize = frames.len() - 1;
        let next: usize = frames[last].next;
        if next >= frames[last].types.len() {
            frames.pop();
            proof {
                assert(frames@ =~= before.drop_last());
                assert(views(before.last().types@).skip(next as int) =~= Seq::empty());
                assert(todo =~= pending(frames@));
            }
        } else {
            let ty: &'a TypeExpression = frames[last].types[next];
            frames[last].next = next + 1;
            let ghost rest = pending(frames@);
            proof {
                assert(frames@.drop_last() =~= before.drop_last());
                let s = views(before.last().types@);
                assert(s.skip(next as int) =~= seq![ty@] + s.skip(next + 1));
                assert(todo =~= seq![ty@] + rest);
                assert(todo.drop_first() =~= rest);
                assert(in_bounds(frames@)) by {
                    assert forall|i: int| 0 <= i < frames@.len() implies (
                    #[trigger] frames@[i]).next <= frames@[i].types@.len() by {
                        if i < frames@.len() - 1 {
                            assert(frames@[i] == before[i]);
                        }
                    }
                }
                lemma_position(module, ty@.ident);
            }
            // get the path and identifier referred to by the type expression, if it is
            // imported
            let target = if let Some(path) = &ty.path {
                Some((resolve_inline_path(path, &module.path, &module.imports), &ty.ident))
            } else if let Some(entry) = find_by_id(&module.imports, ty.ident.id) {
                Some((entry.1.path.clone(), &entry.1.ident))
            } else {
                None
            };
            match target {
                None => {
                    // This is a local declaration or a builtin, we mark the ident as used.
                    if let Some(entry) = find_by_id(&module.idents, ty.ident.id) {
                        let n: usize = entry.1;
                        proof {
                            let id = code.source.declarations[n as int].ident()->0.id;
                            lemma_unmarked(code.source.declarations, used@, id);
                        }
                        enter_decl(module, n, used, frames);
                    }
                },
                Some((ext_path, ext_id)) => {
                    // if the import path points to a local declaration, we just check that
                    // it exists and we're done.
                    if ext_path.equals(&module.path) {
                        if find_by_id(&module.idents, ty.ident.id).is_none() {
                            return Err(
                                ImportError::MissingDecl(ext_path, ty.ident.name.clone()),
                            );
                        }
                    } else {
                        ext_items.push(
                            ExtItem {
                                from: module.path.clone(),
                                path: ext_path,
                                ident: ext_id.clone(),
                            },
                        );
                    }
                },
            }
        }
    }
    Ok(())
}

/// Computes the identifiers used by a module, starting from the given entrypoints,
/// without loading external modules.
///
/// Local declarations transitively reached from the entrypoints are marked used;
/// declarations already marked by a previous call are skipped. Returns the used items that
/// belong to external modules, in the order they are encountered. It is the caller's
/// responsibility to resolve them.
pub fn used_idents(module: &mut Module, entrypoints: &Vec<Entrypoint>) -> (res: Result<
    Vec<ExtItem>,
    ImportError,
>)
    requires
        old(module).wf(),
        forall|i: int|
            0 <= i < entrypoints@.len() ==> ((#[trigger] entrypoints@[i]) matches Entrypoint::Decl(n)
                ==> n < old(module)@.code.source.declarations.len()),
    ensures
        final(module).wf(),
        final(module)@.code == old(module)@.code,
        ({
            let analysis = analyze(
                old(module)@.code,
                old(module)@.used,
                Seq::empty(),
                views(entrypoints@),
            );
            &&& final(module)@.used == analysis.used
            &&& res matches Ok(items) ==> analysis.outcome == Ok::<Seq<ExtView>, ImportErrorView>(
                views(items@),
            )
            &&& res matches Err(e) ==> analysis.outcome == Err::<Seq<ExtView>, ImportErrorView>(e@)
        }),
{
    let mut used: HashSet<u64> = HashSet::new();
    std::mem::swap(&mut used, &mut module.used_idents);
    let res = analyze_entrypoints(module, &mut used, entrypoints);
    module.used_idents = used;
    res
}

fn analyze_entrypoints(
    module: &Module,
    used: &mut HashSet<u64>,
    entrypoints: &Vec<Entrypoint>,
) -> (res: Result<Vec<ExtItem>, ImportError>)
    requires
        module.wf(),
        forall|i: int|
            0 <= i < entrypoints@.len() ==> ((#[trigger] entrypoints@[i]) matches Entrypoint::Decl(n)
                ==> n < module@.code.source.declarations.len()),
    ensures
        ({
            let analysis = analyze(module@.code, old(used)@, Seq::empty(), views(entrypoints@));
            &&& final(used)@ == analysis.used
            &&& res matches Ok(items) ==> analysis.outcome == Ok::<Seq<ExtView>, ImportErrorView>(
                views(items@),
            )
            &&& res matches Err(e) ==> analysis.outcome == Err::<Seq<ExtView>, ImportErrorView>(e@)
        }),
{
    let ghost code = module@.code;
    let mut ext_items: Vec<ExtItem> = Vec::new();
    // in-progress declaration traversals: pushing a frame is the iterative equivalent of
    // descending into a referenced local declaration.
    let mut frames: Vec<Frame> = Vec::new();
    let ghost goal = analyze(code, used@, Seq::empty(), views(entrypoints@));
    let mut i: usize = 0;
    proof {
        assert(views(ext_items@) =~= Seq::empty());
        assert(views(entrypoints@).skip(0) =~= views(entrypoints@));
    }
    while i < entrypoints.len()
        invariant
            module.wf(),
            code == module@.code,
            forall|i: int|
                0 <= i < entrypoints@.len() ==> ((
                #[trigger] entrypoints@[i]) matches Entrypoint::Decl(n) ==> n
                    < module@.code.source.declarations.len()),
            i <= entrypoints@.len(),
            frames@.len() == 0,
            goal == analyze(code, used@, views(ext_items@), views(entrypoints@).skip(i as int)),
            goal == analyze(code, old(used)@, Seq::empty(), views(entrypoints@)),
        decreases entrypoints@.len() - i,
    {
        let ghost start = used@;
        let ghost found = views(ext_items@);
        let ghost left = views(entrypoints@).skip(i as int);
        proof {
            assert(left[0] == entrypoints@[i as int]@);
            assert(left.drop_first() =~= views(entrypoints@).skip(i + 1));
            assert(in_bounds(frames@));
            assert(pending(frames@) =~= Seq::empty());
        }
        match &entrypoints[i] {
            Entrypoint::Ident(ident) => {
                match use_decl(module, ident, used, &mut frames, &mut ext_items) {
                    Ok(()) => {},
                    Err(e) => return Err(e),
                }
                proof {
                    if code.request(ident@) is Enter {
                        let n = code.request(ident@)->Enter_0;
                        assert(code.types_of(n) + Seq::<TypeView>::empty() =~= code.types_of(n));
                    }
                }
            },
            Entrypoint::Decl(n) => {
                let decl = &module.source.global_declarations[*n];
                frames.push(Frame { types: type_exprs(decl), next: 0 });
                proof {
                    assert(frames@.drop_last() =~= Seq::empty());
                    assert(pending(frames@.drop_last()) =~= Seq::empty());
                    assert(frames@.last().next == 0);
                    assert(views(frames@.last().types@).skip(0) =~= code.types_of(*n));
                    assert(pending(frames@) =~= code.types_of(*n));
                }
            },
        }
        match drain_frames(module, used, &mut frames, &mut ext_items) {
            Ok(()) => {},
            Err(e) => return Err(e),
        }
        i += 1;
    }
    Ok(ext_items)
}

} // verus!
