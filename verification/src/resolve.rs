//! Resolving the imports of a root module, lazily or eagerly.
use crate::error::{Error, ErrorView};
use crate::load::{
    answered, asked_in_order, exchanges, load_modules, load_outcome, reports, LoadOutcome, Resolver,
    Trace,
};
use crate::resolutions::Resolutions;
use crate::syntax::{Ident, ModulePath, TranslationUnit};
use crate::views::{group_views, views};
use vstd::prelude::*;

verus! {

broadcast use group_views;

/// Whether a result is what a loading with this outcome demands, once the loaded modules
/// are retargeted.
pub open spec fn resolves<R: Resolver>(
    resolver: &R,
    outcome: LoadOutcome,
    res: Result<Resolutions, Error>,
) -> bool {
    match outcome {
        LoadOutcome::Done(loaded) => match loaded.retargeted() {
            Ok(resolutions) => res matches Ok(r) && r@ == resolutions && r.wf(),
            Err(e) => res matches Err(err) && err@ == ErrorView::import(e),
        },
        _ => reports(resolver, outcome, res),
    }
}

/// Loads all modules "used" transitively by the root module. Makes external idents point at
/// the right declaration in the external module.
///
/// It is "lazy" because external modules are loaded only if used by the `keep` declarations
/// or module-scope `const_assert`s.
///
/// This approach is only valid when stripping is enabled. Otherwise, unused declarations
/// may refer to declarations in unused modules.
///
/// "used": used declarations in the root module are the `keep` parameter. Used declarations
/// in other modules are those reached by `keep` declarations, transitively.
/// Module-scope `const_assert`s are always included.
///
/// Gives up after as many external items as a `u64` can count.
pub fn resolve_lazy<R: Resolver>(
    keep: &Vec<Ident>,
    source: TranslationUnit,
    path: &ModulePath,
    resolver: &R,
) -> (res: Result<Resolutions, Error>)
    ensures
        exists|trace: Trace| #[trigger]
            answered(resolver, trace) && resolves(
                resolver,
                load_outcome(
                    source@,
                    path@,
                    Some(views(keep@)),
                    exchanges(trace),
                    u64::MAX as nat,
                ),
                res,
            ) && (res matches Ok(r) ==> asked_in_order(trace, r@.order)),
{
    let mut idents: Vec<Ident> = Vec::new();
    let mut i: usize = 0;
    while i < keep.len()
        invariant
            i <= keep@.len(),
            views(idents@) == views(keep@).take(i as int),
        decreases keep@.len() - i,
    {
        idents.push(keep[i].clone());
        assert(views(idents@) =~= views(keep@).take(i + 1));
        i += 1;
    }
    assert(views(keep@).take(i as int) =~= views(keep@));
    match load_modules(source, path, Some(idents), resolver, u64::MAX) {
        Ok(resolutions) => match resolutions.retarget() {
            Ok(resolutions) => Ok(resolutions),
            Err(e) => Err(Error::import(e)),
        },
        Err(e) => Err(e),
    }
}

/// Loads all modules referenced by the root module, and makes external idents point at the
/// right declaration in the external module.
///
/// Gives up after as many external items as a `u64` can count.
pub fn resolve_eager<R: Resolver>(
    source: TranslationUnit,
    path: &ModulePath,
    resolver: &R,
) -> (res: Result<Resolutions, Error>)
    ensures
        exists|trace: Trace| #[trigger]
            answered(resolver, trace) && resolves(
                resolver,
                load_outcome(source@, path@, None, exchanges(trace), u64::MAX as nat),
                res,
            ) && (res matches Ok(r) ==> asked_in_order(trace, r@.order)),
{
    match load_modules(source, path, None, resolver, u64::MAX) {
        Ok(resolutions) => match resolutions.retarget() {
            Ok(resolutions) => Ok(resolutions),
            Err(e) => Err(Error::import(e)),
        },
        Err(e) => Err(e),
    }
}

} // verus!
